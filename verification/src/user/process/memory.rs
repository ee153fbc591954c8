//! The virtual memory of processes.
use crossbeam_queue::SegQueue;
use vstd::prelude::*;

use crate::addr::{
    self, Page, PhysFrame, VirtAddr, LAST_PAGE, LOWER_HALF_END, LOWER_HALF_LAST_PAGE, PAGE_SIZE,
};
use crate::error::Error;
use crate::memory::pagetable::{self, Entry, PageTable, PageTableFlags, PAGE_LEN};
use crate::queue;
use crate::user::process::syscall::args::ProtFlags;

use self::mapping::{Backing, Mapping, MemoryPermissions, PageInfo};
use self::state::{Attempt, Memory, VirtualMemoryState};

pub mod access;
pub mod laws;
pub mod mapping;
pub mod page_map;
pub mod request;
pub mod state;

verus! {

/// `x86_64::instructions::tlb::Pcid::new`: accepts numbers below 4096.
#[verifier::external_body]
fn process_context_id(pcid: u16) -> (res: Option<u16>)
    ensures
        res == if pcid < 4096 {
            Some(pcid)
        } else {
            None
        },
{
    match x86_64::instructions::tlb::Pcid::new(pcid) {
        Ok(pcid) => Some(pcid.value()),
        Err(_) => None,
    }
}

/// `x86_64::structures::idt::PageFaultErrorCode`: drops the bit for accesses from user mode and
/// all bits that don't have a meaning. The remaining bits are kept.
#[verifier::external_body]
fn access_bits(error_code: u64) -> (res: u64)
    ensures
        res == error_code & ACCESS_BITS,
{
    let error_code = x86_64::structures::idt::PageFaultErrorCode::from_bits_retain(error_code);
    (error_code & !x86_64::structures::idt::PageFaultErrorCode::USER_MODE).bits()
}

impl Memory {
    /// Only mapped pages are present, they have the right size and those that haven't been written
    /// to hold what they started out as.
    #[verifier::opaque]
    pub open spec fn consistent(self) -> bool {
        &&& state::regions_wf(self.pages)
        &&& forall|page: u64| #[trigger]
            self.table.contains_key(page) ==> self.pages.contains_key(page)
                && self.pages[page].source.fillable() && self.table[page].wf() && (
            !self.table[page].dirty ==> self.table[page].bytes
                == self.pages[page].source.initial())
    }

    /// The page table entry that a page has, or gets when it's brought in.
    pub open spec fn entry(self, page: u64) -> Entry {
        mapping::entry_or_filled(self.table, self.pages[page], page)
    }

    /// The content of the memory at an address.
    pub open spec fn byte(self, address: int) -> u8 {
        let page = (address - address % PAGE_SIZE as int) as u64;
        self.entry(page).bytes[address % PAGE_SIZE as int]
    }

    /// Whether a page may be read from.
    pub open spec fn readable(self, page: int) -> bool {
        &&& 0 <= page <= u64::MAX
        &&& self.pages.contains_key(page as u64)
        &&& self.pages[page as u64].permissions.read
    }

    /// Whether a page may be written to. Memory that can't be read can't be written to either.
    pub open spec fn writable(self, page: int) -> bool {
        &&& self.readable(page)
        &&& self.pages[page as u64].permissions.write
    }

    /// How far memory can be accessed from a page on: the first page that can't be accessed or the
    /// end of the range.
    pub open spec fn reach(self, write: bool, page: int, end: int) -> int
        decreases
            (if page < end {
                end - page
            } else {
                0
            }),
    {
        if page >= end {
            end
        } else if if write {
            self.writable(page)
        } else {
            self.readable(page)
        } {
            self.reach(write, page + PAGE_SIZE, end)
        } else {
            page
        }
    }

    /// Whether all readable pages of a range that would have to be brought in can be brought in.
    pub open spec fn loadable(self, start: int, end: int) -> bool {
        forall|page: u64| #[trigger]
            self.pages.contains_key(page) && start <= page < end && self.pages[page].permissions.read
                && !self.table.contains_key(page) ==> self.pages[page].source.fillable()
    }

    /// Whether the pages that an access to a range gets to can be brought in. The access ends at the
    /// first page that can't be accessed.
    pub open spec fn can_access(self, write: bool, address: int, len: int) -> bool {
        len > 0 ==> self.loadable(
            page_start(address),
            self.reach(write, page_start(address), address + len),
        )
    }

    /// An access ends in its range. It gets past each page that can be accessed.
    proof fn lemma_reach(self, write: bool, page: int, end: int)
        ensures
            page <= end ==> page <= self.reach(write, page, end) <= end,
            page > end ==> self.reach(write, page, end) == end,
            page < end && (if write {
                self.writable(page)
            } else {
                self.readable(page)
            }) ==> page < self.reach(write, page, end),
        decreases
                (if page < end {
                    end - page
                } else {
                    0
                }),
    {
        if page < end {
            self.lemma_reach(write, page + PAGE_SIZE, end);
        }
    }

    /// The memory after a number of bytes have been read.
    pub open spec fn touched(self, address: int, count: int) -> Memory {
        if count <= 0 {
            self
        } else {
            self.loaded(page_start(address), address + count)
        }
    }

    /// The memory after the pages of a range have been brought in.
    pub open spec fn loaded(self, start: int, end: int) -> Memory {
        Memory {
            pages: self.pages,
            table: Map::new(
                |page: u64|
                    self.table.contains_key(page) || (addr::is_page(page) && start <= page < end),
                |page: u64| self.entry(page),
            ),
        }
    }

    /// The memory after bytes have been written to the pages of a range.
    pub open spec fn stored(self, start: int, end: int, address: int, bytes: Seq<u8>) -> Memory {
        Memory {
            pages: self.pages,
            table: Map::new(
                |page: u64|
                    self.table.contains_key(page) || (addr::is_page(page) && start <= page < end),
                |page: u64|
                    if start <= page < end {
                        mapping::made_writable(self.entry(page)).written(
                            part_offset(page as int, address),
                            part(page as int, address, bytes),
                        )
                    } else {
                        self.table[page]
                    },
            ),
        }
    }
}

/// The start of a page.
pub open spec fn page_start(address: int) -> int {
    address - address % PAGE_SIZE as int
}

/// Where in a page the part of a range that is in the page starts.
pub open spec fn part_offset(page: int, address: int) -> int {
    if page < address {
        address - page
    } else {
        0
    }
}

/// The bytes that belong into a page if all of them are laid out from an address on.
pub open spec fn part(page: int, address: int, bytes: Seq<u8>) -> Seq<u8> {
    let from = if page < address {
        0
    } else {
        page - address
    };
    let to = if page + PAGE_SIZE < address + bytes.len() {
        page + PAGE_SIZE - address
    } else {
        bytes.len() as int
    };
    bytes.subrange(from, to)
}

/// The virtual memory of a process.
pub struct VirtualMemory {
    state: VirtualMemoryState,
    page_table: PageTable,
    pml4: PhysFrame,
    pcid: u16,
}

impl VirtualMemory {
    /// The mappings and the page table.
    pub closed spec fn memory(self) -> Memory {
        Memory { pages: self.state@, table: self.page_table@ }
    }

    /// The frame of the page table.
    pub closed spec fn root_frame(self) -> u64 {
        self.pml4@
    }

    /// The number that the address space is known by.
    pub closed spec fn context_id(self) -> u16 {
        self.pcid
    }

    /// The mappings and the page table are well-formed and agree with each other.
    #[verifier::opaque]
    pub closed spec fn wf(self) -> bool {
        &&& self.state.wf()
        &&& self.page_table.wf()
        &&& self.memory().consistent()
        &&& self.pcid < 4096
    }

    /// The mappings and the page table agree with each other.
    pub proof fn lemma_wf(self)
        requires
            self.wf(),
        ensures
            self.memory().consistent(),
            self.context_id() < 4096,
    {
        reveal(VirtualMemory::wf);
    }

    /// Creates an empty address space.
    ///
    /// The counter provides the number that the address space is known by. There are 4096 of them.
    pub fn new(counter: &mut u16, pml4: PhysFrame) -> (res: Self)
        requires
            *old(counter) < 4096,
        ensures
            *final(counter) == *old(counter) + 1,
            res.wf(),
            res.context_id() == *old(counter),
            res.root_frame() == pml4@,
            res.memory() == (Memory { pages: Map::empty(), table: Map::empty() }),
    {
        proof {
            reveal(VirtualMemory::wf);
            reveal(Memory::consistent);
        }
        // FIXME: Use a more robust pcid allocation algorithm.
        let pcid: u16 = *counter;
        *counter = pcid + 1;
        let pcid: u16 = process_context_id(pcid).unwrap();
        VirtualMemory {
            state: VirtualMemoryState::new(),
            page_table: PageTable::new(),
            pml4,
            pcid,
        }
    }
}

/// The operations on virtual memory that are waiting for a processor.
///
/// Operations are known by numbers.
pub struct PendingVirtualMemoryOperations {
    operations: SegQueue<u64>,
}

impl View for PendingVirtualMemoryOperations {
    type V = Seq<u64>;

    closed spec fn view(&self) -> Seq<u64> {
        queue::queued(self.operations)
    }
}

impl PendingVirtualMemoryOperations {
    /// No operations are waiting.
    pub fn new() -> (res: Self)
        ensures
            res@ == Seq::<u64>::empty(),
    {
        PendingVirtualMemoryOperations { operations: queue::new_queue() }
    }

    /// Adds an operation behind all others.
    pub fn push(&mut self, operation: u64)
        ensures
            final(self)@ == old(self)@.push(operation),
    {
        queue::push(&mut self.operations, operation)
    }
}

/// Takes the operation that has been waiting the longest. It has to be executed by the caller.
pub fn do_virtual_memory_op(pending: &mut PendingVirtualMemoryOperations) -> (res: Option<u64>)
    ensures
        old(pending)@.len() == 0 ==> res is None && final(pending)@ == old(pending)@,
        old(pending)@.len() > 0 ==> res == Some(old(pending)@[0]) && final(pending)@ == old(
            pending,
        )@.skip(1),
{
    queue::pop(&mut pending.operations)
}

/// The page table that a processor uses.
#[derive(Clone, Copy, PartialEq, Eq, Structural, Debug)]
pub struct Root {
    /// The frame of the page table.
    pub pml4: PhysFrame,
    /// The number that the address space is known by.
    pub pcid: u16,
}

/// Access to the choice of the page table that a processor uses.
pub struct VirtualMemoryActivator {
    /// The page table in use.
    pub root: Root,
}

/// Virtual memory that is in use.
pub struct ActiveVirtualMemory<'b> {
    /// The virtual memory.
    pub virtual_memory: &'b mut VirtualMemory,
}

impl VirtualMemoryActivator {
    /// Creates an activator for a processor that uses a page table.
    pub fn new(root: Root) -> (res: Self)
        ensures
            res.root == root,
    {
        VirtualMemoryActivator { root }
    }

    /// Switches to the page table of an address space while a function is run. Afterwards the page
    /// table that was in use before is restored.
    pub fn activate<'b, R, F>(&mut self, virtual_memory: &'b mut VirtualMemory, f: F) -> (res: R)
        where F: FnOnce(&mut ActiveVirtualMemory<'b>, Root) -> R
        requires
            forall|active: &mut ActiveVirtualMemory<'b>, root: Root|
                *active.virtual_memory == *old(virtual_memory) && root.pml4@ == old(
                    virtual_memory,
                ).root_frame() && root.pcid == old(virtual_memory).context_id() ==> call_requires(
                    f,
                    (active, root),
                ),
        ensures
            final(self).root == old(self).root,
            exists|active: &mut ActiveVirtualMemory<'b>, root: Root| #[trigger]
                call_ensures(f, (active, root), res) && *active.virtual_memory == *old(
                    virtual_memory,
                ) && root.pml4@ == old(virtual_memory).root_frame() && root.pcid == old(
                    virtual_memory,
                ).context_id() && *final(virtual_memory) == *final(active.virtual_memory)
                    && has_resolved(final(active).virtual_memory),
    {
        // Save the current page tables.
        let previous: Root = self.root;
        // Switch the page tables.
        let root = Root { pml4: virtual_memory.pml4, pcid: virtual_memory.pcid };
        self.root = root;
        let mut active = ActiveVirtualMemory { virtual_memory };
        // Run the closure.
        let res: R = f(&mut active, root);
        // Restore the page tables.
        self.root = previous;
        res
    }
}

impl<'b> ActiveVirtualMemory<'b> {
    /// The virtual memory is well-formed.
    pub open spec fn wf(self) -> bool {
        self.virtual_memory.wf()
    }

    /// The mappings and the page table.
    pub open spec fn memory(self) -> Memory {
        self.virtual_memory.memory()
    }

    /// The address space is the same, though its memory might have been changed.
    pub open spec fn same_space(self, other: Self) -> bool {
        &&& self.virtual_memory.root_frame() == other.virtual_memory.root_frame()
        &&& self.virtual_memory.context_id() == other.virtual_memory.context_id()
    }

    /// Reads memory into a buffer.
    pub fn read(&mut self, addr: VirtAddr, bytes: &mut [u8]) -> (res: Result<(), Error>)
        requires
            old(self).wf(),
            old(bytes)@.len() > 0 ==> addr::canonical_form(addr@ + old(bytes)@.len() - 1) is Some,
            old(self).memory().can_access(false, addr@ as int, old(bytes)@.len() as int),
        ensures
            final(self).wf(),
            final(self).same_space(*old(self)),
            *final(final(self).virtual_memory) == *final(old(self).virtual_memory),
            final(bytes)@.len() == old(bytes)@.len(),
            read_result(
                old(self).memory(),
                addr@ as int,
                old(bytes)@,
                final(self).memory(),
                final(bytes)@,
                res,
            ),
    {
        if bytes.len() == 0 {
            return Ok(());
        }
        let ghost old_memory = self.memory();
        let ghost end = addr@ + bytes@.len();
        let ghost first = page_start(addr@ as int);
        let len: usize = bytes.len();
        let start: u64 = addr.as_u64();
        let end_inclusive: u64 = start + (len - 1) as u64;
        let mut at: u64 = Page::containing_address(addr).start();
        assert(self.memory() =~= old_memory.loaded(first, at as int)) by {
            reveal(Memory::consistent);
            self.virtual_memory.lemma_wf();
        }
        proof {
            self.virtual_memory.lemma_wf();
        }
        assert(bytes@ =~= read_bytes(old_memory, addr@ as int, bytes@, at as int));
        while at <= end_inclusive
            invariant
                self.wf(),
                self.same_space(*old(self)),
                *final(self.virtual_memory) == *final(old(self).virtual_memory),
                old_memory == old(self).memory(),
                old_memory.consistent(),
                len == bytes@.len() == old(bytes)@.len(),
                len > 0,
                start == addr@,
                end == start + len,
                end_inclusive == end - 1,
                first == page_start(addr@ as int),
                addr::is_page(at),
                first <= at < end + PAGE_SIZE,
                old_memory.loadable(first, old_memory.reach(false, first, end)),
                old_memory.reach(false, first, end) == old_memory.reach(false, at as int, end),
                self.memory() == old_memory.loaded(first, at as int),
                bytes@ == read_bytes(old_memory, addr@ as int, old(bytes)@, at as int),
            decreases end + PAGE_SIZE - at,
        {
            let page: Page = Page::containing_address(VirtAddr::new(at));
            proof {
                lemma_load_readable(old_memory, first, at);
                old_memory.lemma_reach(false, at as int, end);
            }
            match self.virtual_memory.read_page(page, start, end_inclusive, bytes) {
                Ok(()) => {},
                Err(err) => {
                    return Err(err);
                },
            }
            proof {
                lemma_load_step(old_memory, first, at);
                lemma_read_step(old_memory, first, start as int, old(bytes)@, at, bytes@);
            }
            at = at + PAGE_SIZE;
        }
        proof {
            lemma_load_end(old_memory, first, at as int, end);
        }
        assert(bytes@ =~= read_bytes(old_memory, addr@ as int, old(bytes)@, end));
        Ok(())
    }
}

/// Bringing pages in doesn't change what may be done with them.
proof fn lemma_load_readable(memory: Memory, first: int, at: u64)
    requires
        addr::is_page(at),
        memory.consistent(),
    ensures
        memory.loaded(first, at as int).readable(at as int) == memory.readable(at as int),
        memory.readable(at as int) ==> addr::is_page(at) && at + PAGE_SIZE <= LAST_PAGE
            && addr::is_page((at + PAGE_SIZE) as u64),
        forall|end: int|
            memory.loadable(first, end) && first <= at < end ==> #[trigger] memory.loaded(
                first,
                at as int,
            ).loadable(at as int, end),
{
    reveal(Memory::consistent);
    if memory.readable(at as int) {
        assert(memory.pages.contains_key(at));
    }
}

/// Pages are brought in one after the other.
proof fn lemma_load_step(memory: Memory, first: int, at: u64)
    requires
        addr::is_page(at),
        first <= at,
    ensures
        memory.loaded(first, at as int).loaded(at as int, at + 1) == memory.loaded(
            first,
            at + PAGE_SIZE,
        ),
{
    assert(memory.loaded(first, at as int).loaded(at as int, at + 1) =~~= memory.loaded(
        first,
        at + PAGE_SIZE,
    ));
}

/// The last page that is brought in may reach past the end of the range.
proof fn lemma_load_end(memory: Memory, first: int, at: int, end: int)
    requires
        at % PAGE_SIZE as int == 0,
        end <= at < end + PAGE_SIZE,
    ensures
        memory.loaded(first, at) == memory.loaded(first, end),
{
    assert(memory.loaded(first, at) =~~= memory.loaded(first, end));
}

/// The pages of a range are read one after the other.
proof fn lemma_read_step(
    memory: Memory,
    first: int,
    address: int,
    buf: Seq<u8>,
    at: u64,
    new_buf: Seq<u8>,
)
    requires
        addr::is_page(at),
        new_buf == Seq::new(
            buf.len(),
            |i: int|
                if at <= address + i < at + PAGE_SIZE {
                    memory.loaded(first, at as int).byte(address + i)
                } else {
                    read_bytes(memory, address, buf, at as int)[i]
                },
        ),
    ensures
        new_buf == read_bytes(memory, address, buf, at + PAGE_SIZE),
{
    assert forall|i: int| 0 <= i < buf.len() && at <= address + i < at
        + PAGE_SIZE implies #[trigger] memory.loaded(first, at as int).byte(address + i)
        == memory.byte(address + i) by {
        assert(page_start(address + i) == at);
    }
    assert(new_buf =~= read_bytes(memory, address, buf, at + PAGE_SIZE));
}

/// A buffer after the memory from an address on has been read into it up to some point.
pub open spec fn read_bytes(memory: Memory, address: int, buf: Seq<u8>, stop: int) -> Seq<u8> {
    Seq::new(
        buf.len(),
        |i: int|
            if address + i < stop {
                memory.byte(address + i)
            } else {
                buf[i]
            },
    )
}

/// The outcome of reading memory. The pages that can be read are brought in up to the first one
/// that can't.
pub open spec fn read_result(
    memory: Memory,
    address: int,
    buf: Seq<u8>,
    new_memory: Memory,
    new_buf: Seq<u8>,
    res: Result<(), Error>,
) -> bool {
    let end = address + buf.len();
    let first = page_start(address);
    let stop = memory.reach(false, first, end);
    if buf.len() == 0 {
        &&& res == Ok::<(), Error>(())
        &&& new_memory == memory
        &&& new_buf == buf
    } else {
        &&& res == if stop == end {
            Ok::<(), Error>(())
        } else {
            Err(Error::Fault)
        }
        &&& new_memory == memory.loaded(first, stop)
        &&& new_buf == read_bytes(memory, address, buf, stop)
    }
}

impl VirtualMemory {
    /// Reads the part of a range that is in a page.
    fn read_page(
        &mut self,
        page: Page,
        start: u64,
        end_inclusive: u64,
        bytes: &mut [u8],
    ) -> (res: Result<(), Error>)
        requires
            old(self).wf(),
            page.wf(),
            start <= end_inclusive,
            end_inclusive - start + 1 == old(bytes)@.len(),
            page@ <= end_inclusive,
            start < page@ + PAGE_SIZE,
            old(self).memory().loadable(page@ as int, page@ + 1),
        ensures
            final(self).wf(),
            final(self).root_frame() == old(self).root_frame(),
            final(self).context_id() == old(self).context_id(),
            res == (if old(self).memory().readable(page@ as int) {
                Ok::<(), Error>(())
            } else {
                Err(Error::Fault)
            }),
            res is Err ==> final(self).memory() == old(self).memory() && final(bytes)@ == old(
                bytes,
            )@,
            res is Ok ==> final(self).memory() == old(self).memory().loaded(
                page@ as int,
                page@ + 1,
            ),
            res is Ok ==> final(bytes)@ == Seq::new(
                old(bytes)@.len(),
                |i: int|
                    if page@ <= start + i < page@ + PAGE_SIZE {
                        old(self).memory().byte(start + i)
                    } else {
                        old(bytes)@[i]
                    },
            ),
    {
        proof {
            reveal(VirtualMemory::wf);
            reveal(Memory::consistent);
        }
        let ghost memory = self.memory();
        let index: usize = match self.state.find(page) {
            Some(index) => index,
            None => {
                return Err(Error::Fault);
            },
        };
        match self.state.mappings[index].make_readable(page, &mut self.page_table) {
            Ok(()) => {},
            Err(err) => {
                return Err(err);
            },
        }
        let copy_start: u64 = if page.start() < start {
            start
        } else {
            page.start()
        };
        let copy_end_inclusive: u64 = if page.start() + 0xfff < end_inclusive {
            page.start() + 0xfff
        } else {
            end_inclusive
        };
        assert(bytes@.len() == bytes.len());
        let len: usize = (copy_end_inclusive - copy_start + 1) as usize;
        self.page_table.read(
            page,
            (copy_start - page.start()) as usize,
            len,
            bytes,
            (copy_start - start) as usize,
        );
        assert(self.memory() =~= memory.loaded(page@ as int, page@ + 1));
        assert forall|i: int| 0 <= i < bytes@.len() && page@ <= start + i < page@
            + PAGE_SIZE implies #[trigger] bytes@[i] == memory.byte(start + i) by {
            assert(page_start(start + i) == page@);
        }
        Ok(())
    }
}

/// The outcome of writing memory. The pages that can be written to are written to up to the first
/// one that can't.
pub open spec fn write_result(
    memory: Memory,
    address: int,
    bytes: Seq<u8>,
    new_memory: Memory,
    res: Result<(), Error>,
) -> bool {
    let end = address + bytes.len();
    let first = page_start(address);
    let stop = memory.reach(true, first, end);
    if bytes.len() == 0 {
        &&& res == Ok::<(), Error>(())
        &&& new_memory == memory
    } else {
        &&& res == if stop == end {
            Ok::<(), Error>(())
        } else {
            Err(Error::Fault)
        }
        &&& new_memory == memory.stored(first, stop, address, bytes)
    }
}

proof fn lemma_store_writable(memory: Memory, first: int, at: u64, address: int, bytes: Seq<u8>)
    requires
        addr::is_page(at),
        memory.consistent(),
    ensures
        memory.stored(first, at as int, address, bytes).writable(at as int) == memory.writable(
            at as int,
        ),
        memory.writable(at as int) ==> addr::is_page(at) && at + PAGE_SIZE <= LAST_PAGE
            && addr::is_page((at + PAGE_SIZE) as u64),
        forall|end: int|
            memory.loadable(first, end) && first <= at < end ==> #[trigger] memory.stored(
                first,
                at as int,
                address,
                bytes,
            ).loadable(at as int, end),
{
    reveal(Memory::consistent);
    if memory.writable(at as int) {
        assert(memory.pages.contains_key(at));
    }
}

/// Pages are written to one after the other.
proof fn lemma_store_step(memory: Memory, first: int, at: u64, address: int, bytes: Seq<u8>)
    requires
        addr::is_page(at),
        first <= at,
        memory.consistent(),
    ensures
        memory.stored(first, at as int, address, bytes).stored(at as int, at + 1, address, bytes)
            == memory.stored(first, at + PAGE_SIZE, address, bytes),
{
    reveal(Memory::consistent);
    assert forall|page: u64| #[trigger] memory.table.contains_key(page) implies addr::is_page(
        page,
    ) by {
        assert(memory.pages.contains_key(page));
    }
    assert(memory.stored(first, at as int, address, bytes).stored(
        at as int,
        at + 1,
        address,
        bytes,
    ) =~~= memory.stored(first, at + PAGE_SIZE, address, bytes));
}

proof fn lemma_store_end(
    memory: Memory,
    first: int,
    at: int,
    end: int,
    address: int,
    bytes: Seq<u8>,
)
    requires
        at % PAGE_SIZE as int == 0,
        end <= at < end + PAGE_SIZE,
        memory.consistent(),
    ensures
        memory.stored(first, at, address, bytes) == memory.stored(first, end, address, bytes),
{
    reveal(Memory::consistent);
    assert forall|page: u64| #[trigger] memory.table.contains_key(page) implies addr::is_page(
        page,
    ) by {
        assert(memory.pages.contains_key(page));
    }
    assert(memory.stored(first, at, address, bytes) =~~= memory.stored(
        first,
        end,
        address,
        bytes,
    ));
}

impl VirtualMemory {
    /// Writes the part of a range that is in a page.
    fn write_page(
        &mut self,
        page: Page,
        start: u64,
        end_inclusive: u64,
        bytes: &[u8],
    ) -> (res: Result<(), Error>)
        requires
            old(self).wf(),
            page.wf(),
            start <= end_inclusive,
            end_inclusive - start + 1 == bytes@.len(),
            page@ <= end_inclusive,
            start < page@ + PAGE_SIZE,
            old(self).memory().writable(page@ as int) ==> old(self).memory().loadable(
                page@ as int,
                page@ + 1,
            ),
        ensures
            final(self).wf(),
            final(self).root_frame() == old(self).root_frame(),
            final(self).context_id() == old(self).context_id(),
            res == (if old(self).memory().writable(page@ as int) {
                Ok::<(), Error>(())
            } else {
                Err(Error::Fault)
            }),
            final(self).memory() == if res is Ok {
                old(self).memory().stored(page@ as int, page@ + 1, start as int, bytes@)
            } else {
                old(self).memory()
            },
    {
        proof {
            reveal(VirtualMemory::wf);
            reveal(Memory::consistent);
        }
        let ghost memory = self.memory();
        let index: usize = match self.state.find(page) {
            Some(index) => index,
            None => {
                return Err(Error::Fault);
            },
        };
        match self.state.mappings[index].make_writable(page, &mut self.page_table) {
            Ok(()) => {},
            Err(err) => {
                return Err(err);
            },
        }
        let copy_start: u64 = if page.start() < start {
            start
        } else {
            page.start()
        };
        let copy_end_inclusive: u64 = if page.start() + 0xfff < end_inclusive {
            page.start() + 0xfff
        } else {
            end_inclusive
        };
        assert(bytes@.len() == bytes.len());
        let len: usize = (copy_end_inclusive - copy_start + 1) as usize;
        self.page_table.write(
            page,
            (copy_start - page.start()) as usize,
            len,
            bytes,
            (copy_start - start) as usize,
        );
        assert(self.memory() =~= memory.stored(page@ as int, page@ + 1, start as int, bytes@));
        Ok(())
    }
}

impl<'b> ActiveVirtualMemory<'b> {
    /// Writes a buffer to memory.
    pub fn write(&mut self, addr: VirtAddr, bytes: &[u8]) -> (res: Result<(), Error>)
        requires
            old(self).wf(),
            bytes@.len() > 0 ==> addr::canonical_form(addr@ + bytes@.len() - 1) is Some,
            old(self).memory().can_access(true, addr@ as int, bytes@.len() as int),
        ensures
            final(self).wf(),
            final(self).same_space(*old(self)),
            *final(final(self).virtual_memory) == *final(old(self).virtual_memory),
            write_result(old(self).memory(), addr@ as int, bytes@, final(self).memory(), res),
    {
        if bytes.len() == 0 {
            return Ok(());
        }
        let ghost old_memory = self.memory();
        let ghost end = addr@ + bytes@.len();
        let ghost first = page_start(addr@ as int);
        let len: usize = bytes.len();
        let start: u64 = addr.as_u64();
        let end_inclusive: u64 = start + (len - 1) as u64;
        let mut at: u64 = Page::containing_address(addr).start();
        assert(self.memory() =~= old_memory.stored(first, at as int, start as int, bytes@)) by {
            reveal(Memory::consistent);
            self.virtual_memory.lemma_wf();
        }
        proof {
            self.virtual_memory.lemma_wf();
        }
        while at <= end_inclusive
            invariant
                self.wf(),
                self.same_space(*old(self)),
                *final(self.virtual_memory) == *final(old(self).virtual_memory),
                old_memory == old(self).memory(),
                old_memory.consistent(),
                len == bytes@.len(),
                len > 0,
                start == addr@,
                end == start + len,
                end_inclusive == end - 1,
                first == page_start(addr@ as int),
                addr::is_page(at),
                first <= at < end + PAGE_SIZE,
                old_memory.loadable(first, old_memory.reach(true, first, end)),
                old_memory.reach(true, first, end) == old_memory.reach(true, at as int, end),
                self.memory() == old_memory.stored(first, at as int, start as int, bytes@),
            decreases end + PAGE_SIZE - at,
        {
            let page: Page = Page::containing_address(VirtAddr::new(at));
            proof {
                lemma_store_writable(old_memory, first, at, start as int, bytes@);
                old_memory.lemma_reach(true, at as int, end);
            }
            match self.virtual_memory.write_page(page, start, end_inclusive, bytes) {
                Ok(()) => {},
                Err(err) => {
                    return Err(err);
                },
            }
            proof {
                lemma_store_step(old_memory, first, at, start as int, bytes@);
            }
            at = at + PAGE_SIZE;
        }
        proof {
            lemma_store_end(old_memory, first, at as int, end, start as int, bytes@);
        }
        Ok(())
    }
}

impl Memory {
    /// The memory after the whole pages of a range have been unmapped.
    #[verifier::opaque]
    pub open spec fn without(self, address: int, len: int) -> Memory {
        let start = state::unmap_start(address);
        let end = state::unmap_end(address, len);
        if start < end {
            Memory {
                pages: state::cut_out(self.pages, start, end),
                table: state::removed(self.table, self.pages, start, end),
            }
        } else {
            self
        }
    }

    /// The memory after a page has been overwritten, whether it may be written to or not.
    pub open spec fn force_written(self, page: u64, bytes: Seq<u8>) -> Memory {
        let info = self.pages[page];
        let writing = MemoryPermissions { write: true, ..info.permissions };
        let entry = mapping::made_writable(
            mapping::entry_or_filled(
                self.table,
                PageInfo { permissions: writing, ..info },
                page,
            ),
        ).written(0, bytes);
        if !self.pages.contains_key(page) {
            self
        } else if !info.permissions.read {
            // The mapping stays writable.
            Memory {
                pages: state::with_permissions(self.pages, info.start, info.end, writing),
                table: self.table,
            }
        } else if info.permissions.write {
            Memory { pages: self.pages, table: self.table.insert(page, entry) }
        } else {
            Memory {
                pages: self.pages,
                table: self.table.insert(
                    page,
                    entry.minus(
                        PageTableFlags { writable: true, user: true, ..PageTableFlags::none() },
                    ),
                ),
            }
        }
    }
}

impl VirtualMemory {
    /// Overwrites a page, whether it may be written to or not. It has to be readable.
    fn force_write_page(&mut self, page: Page, bytes: &[u8]) -> (res: Result<(), Error>)
        requires
            old(self).wf(),
            page.wf(),
            bytes@.len() == PAGE_SIZE,
            old(self).memory().loadable(page@ as int, page@ + 1),
        ensures
            final(self).wf(),
            final(self).root_frame() == old(self).root_frame(),
            final(self).context_id() == old(self).context_id(),
            res == (if old(self).memory().readable(page@ as int) {
                Ok::<(), Error>(())
            } else {
                Err(Error::Fault)
            }),
            final(self).memory() == old(self).memory().force_written(page@, bytes@),
    {
        proof {
            reveal(VirtualMemory::wf);
            reveal(Memory::consistent);
            state::lemma_regions(self.state.mappings@);
        }
        let ghost memory = self.memory();
        let index: usize = match self.state.find(page) {
            Some(index) => index,
            None => {
                return Err(Error::Fault);
            },
        };
        let permissions: MemoryPermissions = self.state.mappings[index].permissions;
        if !permissions.write {
            let mut writing: MemoryPermissions = permissions;
            writing.write = true;
            self.state.set_permissions(index, writing);
        }
        proof {
            state::lemma_regions(self.state.mappings@);
            state::lemma_owner(self.state.mappings@, index as int, page@);
        }
        match self.state.mappings[index].make_writable(page, &mut self.page_table) {
            Ok(()) => {},
            Err(err) => {
                assert(self.memory() =~= memory.force_written(page@, bytes@));
                return Err(err);
            },
        }
        self.page_table.write(page, 0, PAGE_LEN, bytes, 0);
        assert(bytes@.subrange(0, PAGE_LEN as int) =~= bytes@);
        if !permissions.write {
            self.state.set_permissions(index, permissions);
            let mut flags: PageTableFlags = PageTableFlags::empty();
            flags.writable = true;
            flags.user = true;
            self.page_table.remove_flags(page, flags);
            proof {
                state::lemma_regions(self.state.mappings@);
                assert forall|q: u64| #[trigger]
                    memory.pages.contains_key(q) implies self.state@[q] == memory.pages[q] by {
                    if memory.pages[page@].start <= q < memory.pages[page@].end {
                        assert(state::same_mapping(memory.pages[page@], memory.pages[q]));
                    }
                }
            }
            assert(self.state@ =~= memory.pages);
        }
        assert(self.memory() =~~= memory.force_written(page@, bytes@));
        Ok(())
    }
}

impl<'b> ActiveVirtualMemory<'b> {
    /// Overwrites a page, whether it may be written to or not. It has to be readable.
    pub fn force_write(&mut self, page: Page, bytes: &[u8]) -> (res: Result<(), Error>)
        requires
            old(self).wf(),
            bytes@.len() == PAGE_SIZE,
            old(self).memory().loadable(page@ as int, page@ + 1),
        ensures
            final(self).wf(),
            final(self).same_space(*old(self)),
            *final(final(self).virtual_memory) == *final(old(self).virtual_memory),
            res == (if old(self).memory().readable(page@ as int) {
                Ok::<(), Error>(())
            } else {
                Err(Error::Fault)
            }),
            final(self).memory() == old(self).memory().force_written(page@, bytes@),
    {
        proof {
            use_type_invariant(page);
        }
        self.virtual_memory.force_write_page(page, bytes)
    }

    /// Changes the protection of a range.
    pub fn mprotect(&mut self, addr: VirtAddr, len: u64, prot: ProtFlags) -> (res: Result<
        (),
        Error,
    >)
        requires
            old(self).wf(),
            len != 0 && addr@ % PAGE_SIZE == 0 && len % PAGE_SIZE == 0 ==> state::can_protect(
                old(self).memory().pages,
                addr@ as int,
                len as int,
            ),
        ensures
            final(self).wf(),
            final(self).same_space(*old(self)),
            *final(final(self).virtual_memory) == *final(old(self).virtual_memory),
            len == 0 ==> res == Ok::<(), Error>(()),
            len != 0 && (addr@ % PAGE_SIZE != 0 || len % PAGE_SIZE != 0) ==> res == Err::<
                (),
                Error,
            >(Error::Inval),
            len != 0 && addr@ % PAGE_SIZE == 0 && len % PAGE_SIZE == 0 ==> res == (
            if state::any_mapped(
                old(self).memory().pages,
                addr@ as int,
                state::range_end(addr@ as int, len as int),
            ) {
                Ok::<(), Error>(())
            } else {
                Err(Error::Fault)
            }),
            len == 0 || res is Err ==> final(self).memory() == old(self).memory(),
            len != 0 && res is Ok ==> state::protect_result(
                old(self).memory(),
                addr@ as int,
                state::range_end(addr@ as int, len as int),
                (MemoryPermissions { execute: prot.execute, write: prot.write, read: prot.read }),
                final(self).memory(),
            ),
    {
        if len == 0 {
            return Ok(());
        }
        if !addr.is_page_aligned() || len % PAGE_SIZE != 0 {
            return Err(Error::Inval);
        }
        let page: Page = Page::containing_address(addr);
        self.virtual_memory.protect(page, len / PAGE_SIZE, MemoryPermissions::from(prot))
    }

    /// Unmaps the whole pages of a range.
    pub fn unmap(&mut self, addr: VirtAddr, len: u64)
        requires
            old(self).wf(),
            state::can_unmap(old(self).memory().pages, addr@ as int, len as int),
        ensures
            final(self).wf(),
            final(self).same_space(*old(self)),
            *final(final(self).virtual_memory) == *final(old(self).virtual_memory),
            final(self).memory() == old(self).memory().without(addr@ as int, len as int),
    {
        self.virtual_memory.unmap(addr, len)
    }
}

impl VirtualMemory {
    fn protect(&mut self, page: Page, num_pages: u64, permissions: MemoryPermissions) -> (res:
        Result<(), Error>)
        requires
            old(self).wf(),
            num_pages > 0,
            state::can_protect(old(self).memory().pages, page@ as int, num_pages * PAGE_SIZE),
        ensures
            final(self).wf(),
            final(self).root_frame() == old(self).root_frame(),
            final(self).context_id() == old(self).context_id(),
            res == (if state::any_mapped(
                old(self).memory().pages,
                page@ as int,
                state::range_end(page@ as int, num_pages * PAGE_SIZE),
            ) {
                Ok::<(), Error>(())
            } else {
                Err(Error::Fault)
            }),
            res is Err ==> final(self).memory() == old(self).memory(),
            res is Ok ==> state::protect_result(
                old(self).memory(),
                page@ as int,
                state::range_end(page@ as int, num_pages * PAGE_SIZE),
                permissions,
                final(self).memory(),
            ),
    {
        proof {
            reveal(VirtualMemory::wf);
            reveal(Memory::consistent);
        }
        let res = self.state.protect(page, num_pages, permissions, &mut self.page_table);
        proof {
            state::lemma_regions(self.state.mappings@);
            self.page_table.lemma_entries_wf();
            if res is Ok {
                lemma_protect_consistent(
                    old(self).memory(),
                    page@ as int,
                    state::range_end(page@ as int, num_pages * PAGE_SIZE),
                    permissions,
                    self.memory(),
                );
            }
        }
        res
    }

    /// Unmaps the whole pages of a range.
    pub(crate) fn unmap(&mut self, addr: VirtAddr, len: u64)
        requires
            old(self).wf(),
            state::can_unmap(old(self).memory().pages, addr@ as int, len as int),
        ensures
            final(self).wf(),
            final(self).root_frame() == old(self).root_frame(),
            final(self).context_id() == old(self).context_id(),
            final(self).memory() == old(self).memory().without(addr@ as int, len as int),
    {
        proof {
            reveal(VirtualMemory::wf);
            reveal(Memory::consistent);
            reveal(Memory::without);
        }
        let ghost memory = self.memory();
        self.state.unmap(addr, len, &mut self.page_table);
        proof {
            state::lemma_regions(self.state.mappings@);
            assert forall|page: u64| #[trigger]
                self.memory().table.contains_key(page) implies self.memory().pages.contains_key(page)
                && self.memory().pages[page].source == memory.pages[page].source
                && memory.table.contains_key(page) by {
                assert(memory.table.contains_key(page));
            }
        }
    }
}

/// Changing the protection of a range keeps the mappings and the page table in agreement.
proof fn lemma_protect_consistent(
    memory: Memory,
    start: int,
    end: int,
    permissions: MemoryPermissions,
    new: Memory,
)
    requires
        memory.consistent(),
        state::regions_wf(new.pages),
        state::protect_result(memory, start, end, permissions, new),
        forall|page: u64| #[trigger] new.table.contains_key(page) ==> new.table[page].wf(),
    ensures
        new.consistent(),
{
    reveal(Memory::consistent);
    assert forall|page: u64| #[trigger] new.table.contains_key(page) implies new.pages.contains_key(
        page,
    ) && new.pages[page].source.fillable() && new.table[page].wf() && (!new.table[page].dirty
        ==> new.table[page].bytes == new.pages[page].source.initial()) by {
        assert(memory.table.contains_key(page));
    }
}

impl VirtualMemory {
    /// Places memory in a part of a page.
    pub(crate) fn map_unaligned(
        &mut self,
        start: VirtAddr,
        len: u64,
        backing: &Backing,
        offset: u64,
        permissions: MemoryPermissions,
    ) -> (res: Result<(), Error>)
        requires
            old(self).wf(),
            start@ % PAGE_SIZE + len <= PAGE_SIZE,
            mapping::is_range(addr::page_of(start@) as int, PAGE_SIZE as int),
            backing.has_initial_memory(offset as int, len as int),
            old(self).memory().border_fillable(addr::page_of(start@), permissions),
        ensures
            final(self).wf(),
            final(self).root_frame() == old(self).root_frame(),
            final(self).context_id() == old(self).context_id(),
            res == (if old(self).memory().can_border(addr::page_of(start@), permissions) {
                Ok::<(), Error>(())
            } else {
                Err(Error::Fault)
            }),
            final(self).memory() == old(self).memory().bordered(
                addr::page_of(start@),
                permissions,
                (start@ % PAGE_SIZE) as int,
                backing.initial_memory(offset as int, len as int),
            ),
    {
        proof {
            reveal(VirtualMemory::wf);
            reveal(Memory::consistent);
            reveal(Memory::bordered);
        }
        let ghost memory = self.memory();
        let ghost page = addr::page_of(start@);
        let res = self.state.map_unaligned(
            start,
            len,
            backing,
            offset,
            permissions,
            &mut self.page_table,
        );
        proof {
            state::lemma_regions(self.state.mappings@);
            self.page_table.lemma_entries_wf();
            assert forall|q: u64| #[trigger]
                self.memory().table.contains_key(q) implies self.memory().pages.contains_key(q)
                && self.memory().pages[q].source.fillable() && (!self.memory().table[q].dirty
                ==> self.memory().table[q].bytes == self.memory().pages[q].source.initial()) by {
                if q != page {
                    assert(memory.table.contains_key(q));
                }
                if memory.table.contains_key(q) {
                    assert(memory.pages.contains_key(q));
                    assert(self.memory().pages[q].source == memory.pages[q].source);
                }
            }
        }
        res
    }

    /// Adds a mapping of memory that is free.
    pub(crate) fn push_mapping(&mut self, mapping: Mapping)
        requires
            old(self).wf(),
            mapping.wf(),
            forall|page: u64| #[trigger]
                old(self).memory().pages.contains_key(page) ==> !mapping.covers(page as int),
        ensures
            final(self).wf(),
            final(self).root_frame() == old(self).root_frame(),
            final(self).context_id() == old(self).context_id(),
            final(self).memory() == (Memory {
                pages: state::with_mapping(old(self).memory().pages, mapping),
                table: old(self).memory().table,
            }),
    {
        proof {
            reveal(VirtualMemory::wf);
        }
        assert forall|page: u64| #[trigger] self.state@.contains_key(page) implies !mapping.covers(
            page as int,
        ) by {
            assert(self.memory().pages.contains_key(page));
        }
        self.state.push(mapping);
        proof {
            reveal(Memory::consistent);
            state::lemma_regions(self.state.mappings@);
        }
    }

    /// Searches for the start of a free range in the lower half that a mapping can be placed in.
    pub(crate) fn find_free_address(&self, size: u64) -> (res: Option<VirtAddr>)
        requires
            self.wf(),
            size < LOWER_HALF_END,
        ensures
            res matches Some(addr) ==> {
                &&& addr.wf()
                &&& addr@ % PAGE_SIZE == 0
                &&& addr@ + size <= LOWER_HALF_LAST_PAGE
                &&& state::is_free(self.memory().pages, addr@ as int, size as int)
            },
    {
        proof {
            reveal(VirtualMemory::wf);
        }
        let mut attempts: usize = 0;
        loop
            invariant
                self.state.wf(),
                self.state@ == self.memory().pages,
                size < LOWER_HALF_END,
                attempts < state::MAX_ATTEMPTS,
            decreases state::MAX_ATTEMPTS - attempts,
        {
            let addr: VirtAddr = match self.state.find_free_address(size) {
                Some(addr) => addr,
                None => {
                    return None;
                },
            };
            match state::placement(addr, size, attempts) {
                Attempt::Found(addr) => {
                    return Some(addr);
                },
                Attempt::Again(made) => {
                    attempts = made;
                },
                Attempt::GiveUp => {
                    return None;
                },
            }
        }
    }
}

impl Memory {
    /// Whether a string goes on at an address: the address can be read from and doesn't hold the
    /// terminator.
    pub open spec fn goes_on(self, address: int) -> bool {
        self.readable(page_start(address)) && self.byte(address) != 0
    }

    /// How many bytes of a string can be read before its end, the first address that can't be read
    /// from, or one more than a maximum.
    pub open spec fn scan(self, address: int, count: int, max: int) -> int
        decreases max - count + 1,
    {
        if count > max || !self.goes_on(address + count) {
            count
        } else {
            self.scan(address, count + 1, max)
        }
    }
}

/// The longest path.
pub const PATH_MAX: usize = 0x1000;

/// The outcome of reading a string: its bytes without the terminator.
pub open spec fn cstring_result(
    memory: Memory,
    address: int,
    max: int,
    res: Result<Vec<u8>, Error>,
) -> bool {
    let len = memory.scan(address, 0, max);
    if len > max {
        res == Err::<Vec<u8>, Error>(Error::NameTooLong)
    } else if !memory.readable(page_start(address + len)) {
        res == Err::<Vec<u8>, Error>(Error::Fault)
    } else {
        res matches Ok(bytes) && bytes@ == Seq::new(
            len as nat,
            |i: int| memory.byte(address + i),
        )
    }
}

/// How much memory is read to find the end of a string.
pub open spec fn cstring_extent(memory: Memory, address: int, max: int) -> int {
    let len = memory.scan(address, 0, max);
    if len > max || !memory.readable(page_start(address + len)) {
        len
    } else {
        len + 1
    }
}

/// Scanning doesn't go back.
proof fn lemma_scan(memory: Memory, address: int, count: int, max: int)
    requires
        count <= max + 1,
    ensures
        count <= memory.scan(address, count, max) <= max + 1,
    decreases max - count + 1,
{
    if count <= max && memory.goes_on(address + count) {
        lemma_scan(memory, address, count + 1, max);
    }
}

/// Reading one more byte brings in its page.
proof fn lemma_load_byte(memory: Memory, address: int, count: int, max: int)
    requires
        0 <= address,
        0 <= count <= max,
        address + count <= u64::MAX,
        memory.consistent(),
        memory.scan(address, 0, max) == memory.scan(address, count, max),
        memory.loadable(page_start(address), address + cstring_extent(memory, address, max)),
        count > 0 ==> memory.readable(page_start(address + count - 1)),
    ensures
        ({
            let at = address + count;
            let touched = memory.touched(address, count);
            &&& touched.byte(at) == memory.byte(at)
            &&& touched.reach(false, page_start(at), at + 1) == if memory.readable(
                page_start(at),
            ) {
                at + 1
            } else {
                page_start(at)
            }
            &&& memory.readable(page_start(at)) ==> touched.loaded(page_start(at), at + 1)
                == memory.touched(address, count + 1)
            &&& touched.loaded(page_start(at), page_start(at)) == touched
            &&& touched.loadable(page_start(at), at + 1)
            &&& memory.readable(page_start(at)) ==> at + 1 <= u64::MAX && addr::is_canonical(
                at + 1,
            )
        }),
{
    let at = address + count;
    lemma_touched_reach(memory, address, count);
    lemma_touched_again(memory, address, count);
    lemma_scan(memory, address, count, max);
    if memory.readable(page_start(at)) {
        lemma_touched_next(memory, address, count);
        assert(count + 1 <= cstring_extent(memory, address, max));
        lemma_readable_address(memory, at);
    }
    lemma_touched_loadable(memory, address, count, cstring_extent(memory, address, max));
}

proof fn lemma_readable_address(memory: Memory, address: int)
    requires
        memory.consistent(),
        0 <= address <= u64::MAX,
        memory.readable(page_start(address)),
    ensures
        address + 1 <= u64::MAX,
        addr::is_canonical(address + 1),
{
    reveal(Memory::consistent);
    assert(memory.pages.contains_key(page_start(address) as u64));
}

proof fn lemma_touched_reach(memory: Memory, address: int, count: int)
    requires
        0 <= address,
        0 <= count,
    ensures
        ({
            let at = address + count;
            let touched = memory.touched(address, count);
            &&& touched.byte(at) == memory.byte(at)
            &&& touched.reach(false, page_start(at), at + 1) == if memory.readable(
                page_start(at),
            ) {
                at + 1
            } else {
                page_start(at)
            }
        }),
{
    let at = address + count;
    let touched = memory.touched(address, count);
    assert(touched.pages == memory.pages);
    assert(touched.readable(page_start(at)) == memory.readable(page_start(at)));
    assert(touched.reach(false, page_start(at) + PAGE_SIZE, at + 1) == at + 1);
}

proof fn lemma_touched_again(memory: Memory, address: int, count: int)
    ensures
        ({
            let at = address + count;
            let touched = memory.touched(address, count);
            touched.loaded(page_start(at), page_start(at)) == touched
        }),
{
    let at = address + count;
    let touched = memory.touched(address, count);
    assert(touched.loaded(page_start(at), page_start(at)).table =~= touched.table);
}

proof fn lemma_touched_next(memory: Memory, address: int, count: int)
    requires
        0 <= address,
        0 <= count,
    ensures
        ({
            let at = address + count;
            let touched = memory.touched(address, count);
            touched.loaded(page_start(at), at + 1) == memory.touched(address, count + 1)
        }),
{
    let at = address + count;
    let touched = memory.touched(address, count);
    let new = touched.loaded(page_start(at), at + 1).table;
    let expected = memory.touched(address, count + 1).table;
    assert forall|page: u64| #[trigger] new.contains_key(page) <==> expected.contains_key(page) by {
        if addr::is_page(page) && page_start(at) <= page < at + 1 {
            assert(page_start(address) <= page);
        }
    }
    assert(new =~= expected);
}

proof fn lemma_touched_loadable(memory: Memory, address: int, count: int, extent: int)
    requires
        0 <= address,
        0 <= count,
        memory.loadable(page_start(address), address + extent),
        address + count <= u64::MAX,
        memory.readable(page_start(address + count)) ==> count + 1 <= extent,
        memory.consistent(),
    ensures
        memory.touched(address, count).loadable(page_start(address + count), address + count + 1),
{
    let at = address + count;
    let touched = memory.touched(address, count);
    assert forall|page: u64| #[trigger]
        touched.pages.contains_key(page) && page_start(at) <= page < at + 1
            && touched.pages[page].permissions.read && !touched.table.contains_key(
            page,
        ) implies touched.pages[page].source.fillable() by {
        assert(addr::is_page(page)) by {
            reveal(Memory::consistent);
            assert(memory.pages.contains_key(page));
        }
        assert(page == page_start(at));
        assert(memory.readable(page as int));
        assert(memory.pages.contains_key(page));
        assert(page_start(address) <= page);
    }
}

impl<'b> ActiveVirtualMemory<'b> {
    /// Reads a string that ends with a zero. The zero isn't part of the result.
    pub fn read_cstring(&mut self, addr: VirtAddr, max_length: usize) -> (res: Result<
        Vec<u8>,
        Error,
    >)
        requires
            old(self).wf(),
            old(self).memory().loadable(
                page_start(addr@ as int),
                addr@ + cstring_extent(old(self).memory(), addr@ as int, max_length as int),
            ),
        ensures
            final(self).wf(),
            final(self).same_space(*old(self)),
            *final(final(self).virtual_memory) == *final(old(self).virtual_memory),
            cstring_result(old(self).memory(), addr@ as int, max_length as int, res),
            final(self).memory() == old(self).memory().touched(
                addr@ as int,
                cstring_extent(old(self).memory(), addr@ as int, max_length as int),
            ),
    {
        let ghost memory = self.memory();
        let ghost start = addr@ as int;
        let ghost first = page_start(start);
        let ghost max = max_length as int;
        let mut at: VirtAddr = addr;
        let mut ret: Vec<u8> = Vec::new();
        proof {
            use_type_invariant(&at);
            self.virtual_memory.lemma_wf();
        }
        loop
            invariant
                self.wf(),
                self.same_space(*old(self)),
                *final(self.virtual_memory) == *final(old(self).virtual_memory),
                memory == old(self).memory(),
                memory.consistent(),
                0 <= start <= u64::MAX,
                first == page_start(start),
                max == max_length,
                ret@.len() <= max,
                start == addr@,
                at.wf(),
                at@ == start + ret@.len(),
                forall|i: int| 0 <= i < ret@.len() ==> ret@[i] == memory.byte(start + i),
                self.memory() == memory.touched(start, ret@.len() as int),
                ret@.len() > 0 ==> memory.readable(page_start(start + ret@.len() - 1)),
                memory.scan(start, 0, max) == memory.scan(start, ret@.len() as int, max),
                memory.loadable(first, start + cstring_extent(memory, start, max)),
            decreases max - ret@.len(),
        {
            let ghost count = ret@.len() as int;
            proof {
                lemma_scan(memory, start, count, max);
                lemma_load_byte(memory, start, count, max);
            }
            let mut buf: Vec<u8> = Vec::new();
            buf.push(0);
            match self.read(at, buf.as_mut_slice()) {
                Ok(()) => {},
                Err(err) => {
                    return Err(err);
                },
            }
            let byte: u8 = buf[0];
            assert(byte == memory.byte(start + count));
            if byte == 0 {
                let ghost len = memory.scan(start, 0, max);
                assert(ret@ =~= Seq::new(len as nat, |i: int| memory.byte(start + i)));
                return Ok(ret);
            }
            if ret.len() == max_length {
                assert(memory.scan(start, count + 1, max) == count + 1);
                return Err(Error::NameTooLong);
            }
            at = at.forward_checked(1).unwrap();
            ret.push(byte);
        }
    }

    /// Reads a path.
    pub fn read_path(&mut self, addr: VirtAddr) -> (res: Result<Vec<u8>, Error>)
        requires
            old(self).wf(),
            old(self).memory().loadable(
                page_start(addr@ as int),
                addr@ + cstring_extent(old(self).memory(), addr@ as int, PATH_MAX as int),
            ),
        ensures
            final(self).wf(),
            final(self).same_space(*old(self)),
            *final(final(self).virtual_memory) == *final(old(self).virtual_memory),
            cstring_result(old(self).memory(), addr@ as int, PATH_MAX as int, res),
            final(self).memory() == old(self).memory().touched(
                addr@ as int,
                cstring_extent(old(self).memory(), addr@ as int, PATH_MAX as int),
            ),
    {
        self.read_cstring(addr, PATH_MAX)
    }
}

/// What became of a page fault.
#[derive(Clone, Copy, PartialEq, Eq, Structural, Debug)]
pub enum PageFaultOutcome {
    /// The access can be tried again.
    Handled,
    /// The memory isn't mapped.
    NotMapped,
    /// The access isn't permitted.
    Denied,
    /// The cause of the page fault isn't known.
    Unsupported,
}

/// The bit of a page fault's error code for pages that are present.
pub const PROTECTION_VIOLATION: u64 = 1;

/// The bit of a page fault's error code for writes.
pub const CAUSED_BY_WRITE: u64 = 2;

/// The bit of a page fault's error code for instruction fetches.
pub const INSTRUCTION_FETCH: u64 = 16;

/// All bits of a page fault's error code that have a meaning but the one for accesses from user mode.
pub const ACCESS_BITS: u64 = 0x8000_807b;

/// The page that a page fault is about.
pub open spec fn fault_page(addr: u64) -> u64 {
    addr::page_of(addr::canonical_form(addr as int)->0)
}

impl Memory {
    /// The page table entry of a page after an access that caused a page fault has been permitted,
    /// if the cause is known.
    pub open spec fn fault_entry(self, page: u64, bits: u64) -> Option<Entry> {
        if bits == INSTRUCTION_FETCH {
            Some(mapping::made_executable(self.entry(page)))
        } else if bits == CAUSED_BY_WRITE || bits == CAUSED_BY_WRITE + PROTECTION_VIOLATION {
            Some(mapping::made_writable(self.entry(page)))
        } else if bits == 0 {
            Some(self.entry(page))
        } else {
            None
        }
    }

    /// Whether an access that caused a page fault is permitted.
    pub open spec fn fault_permitted(self, page: u64, bits: u64) -> bool {
        let permissions = self.pages[page].permissions;
        &&& permissions.read
        &&& bits == INSTRUCTION_FETCH ==> permissions.execute
        &&& bits == CAUSED_BY_WRITE || bits == CAUSED_BY_WRITE + PROTECTION_VIOLATION
            ==> permissions.write
    }

    /// What becomes of a page fault.
    pub open spec fn fault_outcome(self, page: u64, bits: u64) -> PageFaultOutcome {
        if !self.pages.contains_key(page) {
            PageFaultOutcome::NotMapped
        } else if self.fault_entry(page, bits) is None {
            PageFaultOutcome::Unsupported
        } else if self.fault_permitted(page, bits) {
            PageFaultOutcome::Handled
        } else {
            PageFaultOutcome::Denied
        }
    }
}

/// The outcome of handling a page fault. The page is brought in if the page fault has been handled.
pub open spec fn fault_result(
    memory: Memory,
    addr: u64,
    error_code: u64,
    new: Memory,
    res: PageFaultOutcome,
) -> bool {
    let page = fault_page(addr);
    let bits = error_code & ACCESS_BITS;
    &&& res == memory.fault_outcome(page, bits)
    &&& new == if res == PageFaultOutcome::Handled {
        Memory {
            pages: memory.pages,
            table: memory.table.insert(page, memory.fault_entry(page, bits)->0),
        }
    } else {
        memory
    }
}

impl VirtualMemory {
    /// Returns whether the pages that an access to a range gets to can be brought in. A page of a file
    /// can't if the file ends before it.
    pub fn can_access(&self, write: bool, addr: VirtAddr, len: u64) -> (res: bool)
        requires
            self.wf(),
        ensures
            res == self.memory().can_access(write, addr@ as int, len as int),
    {
        reveal(VirtualMemory::wf);
        if len == 0 {
            return true;
        }
        let ghost memory = self.memory();
        let ghost first = page_start(addr@ as int);
        let ghost end = addr@ + len;
        let end_inclusive: u64 = addr.as_u64().saturating_add(len - 1);
        let mut at: u64 = Page::containing_address(addr).start();
        while at <= end_inclusive
            invariant
                self.wf(),
                self.state.wf(),
                memory == self.memory(),
                memory.consistent(),
                first == page_start(addr@ as int),
                end == addr@ + len,
                len > 0,
                end_inclusive == if end - 1 <= u64::MAX {
                    end - 1
                } else {
                    u64::MAX as int
                },
                addr::is_page(at),
                first <= at,
                memory.reach(write, first, end) == memory.reach(write, at as int, end),
                memory.loadable(first, at as int),
            decreases u64::MAX - at,
        {
            let page: Page = Page::containing_address(VirtAddr::new(at));
            proof {
                lemma_load_readable(memory, first, at);
                memory.lemma_reach(write, at as int, end);
            }
            let index: usize = match self.state.find(page) {
                Some(index) => index,
                None => {
                    return true;
                },
            };
            let permissions: MemoryPermissions = self.state.mappings[index].permissions;
            if !permissions.read || (write && !permissions.write) {
                return true;
            }
            if !self.page_table.is_present(page) && !self.state.mappings[index].is_fillable(page) {
                assert(memory.pages.contains_key(at));
                return false;
            }
            assert forall|q: u64| #[trigger]
                memory.pages.contains_key(q) && first <= q < at + PAGE_SIZE
                    && memory.pages[q].permissions.read && !memory.table.contains_key(
                    q,
                ) implies memory.pages[q].source.fillable() by {
                if q >= at {
                    assert(addr::is_page(q)) by {
                        reveal(Memory::consistent);
                    }
                    assert(q == at);
                }
            }
            at = at + PAGE_SIZE;
        }
        proof {
            memory.lemma_reach(write, at as int, end);
        }
        true
    }

    /// Handles a page fault. The address has to be one.
    pub fn handle_page_fault(&mut self, addr: u64, error_code: u64) -> (res: PageFaultOutcome)
        requires
            old(self).wf(),
            addr::canonical_form(addr as int) is Some,
            old(self).memory().fault_outcome(fault_page(addr), error_code & ACCESS_BITS)
                == PageFaultOutcome::Handled ==> old(self).memory().loadable(
                fault_page(addr) as int,
                fault_page(addr) + 1,
            ),
        ensures
            final(self).wf(),
            final(self).root_frame() == old(self).root_frame(),
            final(self).context_id() == old(self).context_id(),
            res == old(self).memory().fault_outcome(fault_page(addr), error_code & ACCESS_BITS),
            final(self).memory() == if res == PageFaultOutcome::Handled {
                Memory {
                    pages: old(self).memory().pages,
                    table: old(self).memory().table.insert(
                        fault_page(addr),
                        old(self).memory().fault_entry(
                            fault_page(addr),
                            error_code & ACCESS_BITS,
                        )->0,
                    ),
                }
            } else {
                old(self).memory()
            },
            fault_result(old(self).memory(), addr, error_code, final(self).memory(), res),
            error_code & 2 == 2 && error_code & 0x8000_8078 == 0
                && old(self).memory().pages.contains_key(fault_page(addr)) ==> {
                let permissions = old(self).memory().pages[fault_page(addr)].permissions;
                &&& res == if permissions.read && permissions.write {
                    PageFaultOutcome::Handled
                } else {
                    PageFaultOutcome::Denied
                }
                &&& res == PageFaultOutcome::Handled ==> {
                    let entry = final(self).memory().table[fault_page(addr)];
                    &&& final(self).memory().table.contains_key(fault_page(addr))
                    &&& entry.flags.writable
                    &&& !entry.flags.cow
                    &&& entry.bytes == old(self).memory().entry(fault_page(addr)).bytes
                }
            },
    {
        proof {
            reveal(VirtualMemory::wf);
            reveal(Memory::consistent);
            access::lemma_fault_bits(error_code);
        }
        let ghost memory = self.memory();
        let page: Page = Page::containing_address(VirtAddr::new(addr));
        assert(page@ == fault_page(addr));
        let index: usize = match self.state.find(page) {
            Some(index) => index,
            None => {
                return PageFaultOutcome::NotMapped;
            },
        };
        let bits: u64 = access_bits(error_code);
        let res: Result<(), Error> = if bits == INSTRUCTION_FETCH {
            self.state.mappings[index].make_executable(page, &mut self.page_table)
        } else if bits == CAUSED_BY_WRITE || bits == CAUSED_BY_WRITE + PROTECTION_VIOLATION {
            self.state.mappings[index].make_writable(page, &mut self.page_table)
        } else if bits == 0 {
            self.state.mappings[index].make_readable(page, &mut self.page_table)
        } else {
            return PageFaultOutcome::Unsupported;
        };
        proof {
            self.page_table.lemma_entries_wf();
            assert forall|q: u64| #[trigger]
                self.memory().table.contains_key(q) implies self.memory().pages.contains_key(q)
                && self.memory().pages[q].source.fillable() && (!self.memory().table[q].dirty
                ==> self.memory().table[q].bytes == self.memory().pages[q].source.initial()) by {
                if q != page@ {
                    assert(memory.table.contains_key(q));
                }
            }
        }
        match res {
            Ok(()) => PageFaultOutcome::Handled,
            Err(_) => PageFaultOutcome::Denied,
        }
    }
}

impl Memory {
    /// Whether all pages that have been written to can be read.
    pub open spec fn dirty_readable(self) -> bool {
        forall|page: u64| #[trigger]
            self.table.contains_key(page) && self.table[page].dirty
                ==> self.pages[page].permissions.read
    }

    /// The entry for a copy of a page.
    pub open spec fn copied_entry(self, page: u64) -> Entry {
        let permissions = self.pages[page].permissions;
        Entry {
            bytes: self.table[page].bytes,
            flags: PageTableFlags {
                user: permissions.write,
                writable: permissions.write,
                executable: permissions.execute,
                ..PageTableFlags::none()
            },
            dirty: true,
        }
    }

    /// A deep copy. Only the pages that have been written to have to be copied.
    pub open spec fn cloned(self) -> Memory {
        Memory {
            pages: self.pages,
            table: Map::new(
                |page: u64| self.table.contains_key(page) && self.table[page].dirty,
                |page: u64| self.copied_entry(page),
            ),
        }
    }

    /// A deep copy of some of the pages.
    spec fn partly_cloned(self, pages: Seq<(Page, Vec<u8>)>, count: int) -> Memory {
        Memory {
            pages: self.pages,
            table: Map::new(
                |page: u64| exists|i: int| 0 <= i < count && (#[trigger] pages[i]).0@ == page,
                |page: u64| self.copied_entry(page),
            ),
        }
    }

    /// Whether pages are those that have been written to, in ascending order and with their
    /// content.
    pub open spec fn are_dirty_pages(self, pages: Seq<(Page, Vec<u8>)>) -> bool {
        &&& forall|i: int, j: int| 0 <= i < j < pages.len() ==> pages[i].0@ < pages[j].0@
        &&& forall|i: int|
            0 <= i < pages.len() ==> self.table.contains_key((#[trigger] pages[i]).0@)
                && self.table[pages[i].0@].dirty && pages[i].1@ == self.table[pages[i].0@].bytes
        &&& forall|page: u64| #[trigger]
            self.table.contains_key(page) && self.table[page].dirty ==> exists|i: int|
                0 <= i < pages.len() && (#[trigger] pages[i]).0@ == page
    }
}

/// Overwriting a page that isn't present.
proof fn lemma_force_write_copy(memory: Memory, copy: Memory, page: u64)
    requires
        memory.consistent(),
        memory.table.contains_key(page),
        memory.pages[page].permissions.read,
        copy.pages == memory.pages,
        !copy.table.contains_key(page),
    ensures
        copy.force_written(page, memory.table[page].bytes) == (Memory {
            pages: memory.pages,
            table: copy.table.insert(page, memory.copied_entry(page)),
        }),
        copy.loadable(page as int, page + 1),
        copy.readable(page as int),
{
    reveal(Memory::consistent);
    let info = memory.pages[page];
    let bytes = memory.table[page].bytes;
    assert(memory.pages.contains_key(page));
    assert(pagetable::overwrite(info.source.initial(), 0, bytes) =~= bytes);
    assert(copy.force_written(page, bytes).table[page] =~~= memory.copied_entry(page));
}

impl VirtualMemory {
    /// Collects the pages that have been written to and their content. They have to be readable.
    fn dirty_pages(&self) -> (res: Result<Vec<(Page, Vec<u8>)>, Error>)
        requires
            self.wf(),
        ensures
            res is Ok <==> self.memory().dirty_readable(),
            res matches Ok(pages) ==> self.memory().are_dirty_pages(pages@),
            res matches Err(err) ==> err == Error::Fault,
    {
        proof {
            reveal(VirtualMemory::wf);
            reveal(Memory::consistent);
        }
        let ghost memory = self.memory();
        let found: Vec<u64> = self.page_table.find_dirty_userspace_pages();
        let mut pages: Vec<(Page, Vec<u8>)> = Vec::new();
        let mut i: usize = 0;
        while i < found.len()
            invariant
                self.state.wf(),
                self.page_table.wf(),
                memory == self.memory(),
                memory.consistent(),
                i <= found@.len(),
                pages@.len() == i,
                pagetable::sorted(found@),
                forall|page: u64| #[trigger]
                    found@.contains(page) <==> memory.table.contains_key(page)
                        && memory.table[page].dirty,
                forall|j: int|
                    0 <= j < i ==> (#[trigger] pages@[j]).0@ == found@[j] && pages@[j].1@
                        == memory.table[found@[j]].bytes && memory.pages[found@[j]].permissions.read,
            decreases found@.len() - i,
        {
            proof {
                reveal(Memory::consistent);
                assert(found@.contains(found@[i as int]));
                assert(memory.pages.contains_key(found@[i as int]));
            }
            let page: Page = Page::containing_address(VirtAddr::new(found[i]));
            match self.state.find(page) {
                Some(index) => {
                    if !self.state.mappings[index].permissions.read {
                        return Err(Error::Fault);
                    }
                },
                None => {
                    return Err(Error::Fault);
                },
            }
            let mut bytes: Vec<u8> = Vec::new();
            bytes.resize(PAGE_LEN, 0);
            self.page_table.read(page, 0, PAGE_LEN, bytes.as_mut_slice(), 0);
            assert(bytes@ =~= memory.table[page@].bytes);
            pages.push((page, bytes));
            i = i + 1;
        }
        proof {
            assert forall|page: u64| #[trigger]
                memory.table.contains_key(page) && memory.table[page].dirty implies exists|i: int|
                0 <= i < pages@.len() && (#[trigger] pages@[i]).0@ == page by {
                assert(found@.contains(page));
                let k = choose|k: int| 0 <= k < found@.len() && found@[k] == page;
                assert(pages@[k].0@ == page);
            }
            assert forall|k: int| 0 <= k < pages@.len() implies memory.table.contains_key(
                (#[trigger] pages@[k]).0@,
            ) && memory.table[pages@[k].0@].dirty by {
                assert(found@.contains(found@[k]));
            }
            assert forall|page: u64| #[trigger]
                memory.table.contains_key(page)
                    && memory.table[page].dirty implies memory.pages[page].permissions.read by {
                let k = choose|k: int| 0 <= k < pages@.len() && (#[trigger] pages@[k]).0@ == page;
                assert(pages@[k].0@ == page);
            }
        }
        Ok(pages)
    }

    /// Creates a deep copy of the memory. The pages that have been written to have to be readable.
    pub fn clone(&self, counter: &mut u16, pml4: PhysFrame) -> (res: Result<Self, Error>)
        requires
            self.wf(),
            *old(counter) < 4096,
        ensures
            *final(counter) == *old(counter) + 1,
            res is Ok <==> self.memory().dirty_readable(),
            res matches Err(err) ==> err == Error::Fault,
            res matches Ok(copy) ==> {
                &&& copy.wf()
                &&& copy.context_id() == *old(counter)
                &&& copy.root_frame() == pml4@
                &&& copy.memory() == self.memory().cloned()
            },
    {
        let ghost memory = self.memory();
        let mut copy: VirtualMemory = VirtualMemory::new(counter, pml4);
        copy.copy_mappings(self);
        let pages: Vec<(Page, Vec<u8>)> = match self.dirty_pages() {
            Ok(pages) => pages,
            Err(err) => {
                return Err(err);
            },
        };
        proof {
            self.lemma_wf();
        }
        assert(copy.memory() =~~= memory.partly_cloned(pages@, 0));
        let mut i: usize = 0;
        while i < pages.len()
            invariant
                i <= pages@.len(),
                copy.wf(),
                copy.context_id() == *old(counter),
                copy.root_frame() == pml4@,
                memory.consistent(),
                memory.dirty_readable(),
                memory.are_dirty_pages(pages@),
                copy.memory() == memory.partly_cloned(pages@, i as int),
            decreases pages@.len() - i,
        {
            let page: Page = pages[i].0;
            proof {
                use_type_invariant(&page);
                reveal(Memory::consistent);
                lemma_force_write_copy(memory, copy.memory(), page@);
                assert(memory.table[page@].bytes.len() == PAGE_SIZE);
            }
            match copy.force_write_page(page, pages[i].1.as_slice()) {
                Ok(()) => {},
                Err(err) => {
                    return Err(err);
                },
            }
            i = i + 1;
            proof {
                lemma_clone_step(memory, pages@, i as int);
            }
        }
        assert(copy.memory() =~~= memory.cloned());
        Ok(copy)
    }

    /// Takes over the mappings of another address space.
    fn copy_mappings(&mut self, other: &VirtualMemory)
        requires
            old(self).wf(),
            other.wf(),
            old(self).memory().table == Map::<u64, Entry>::empty(),
        ensures
            final(self).wf(),
            final(self).root_frame() == old(self).root_frame(),
            final(self).context_id() == old(self).context_id(),
            final(self).memory() == (Memory {
                pages: other.memory().pages,
                table: Map::<u64, Entry>::empty(),
            }),
    {
        proof {
            reveal(VirtualMemory::wf);
            reveal(Memory::consistent);
        }
        self.state = other.state.clone();
    }
}

impl<'b> ActiveVirtualMemory<'b> {
    /// Collects the pages that have been written to and their content. They have to be readable.
    pub fn find_dirty_userspace_pages(&self) -> (res: Result<Vec<(Page, Vec<u8>)>, Error>)
        requires
            self.wf(),
        ensures
            res is Ok <==> self.memory().dirty_readable(),
            res matches Ok(pages) ==> self.memory().are_dirty_pages(pages@),
            res matches Err(err) ==> err == Error::Fault,
    {
        self.virtual_memory.dirty_pages()
    }
}

proof fn lemma_clone_step(memory: Memory, pages: Seq<(Page, Vec<u8>)>, count: int)
    requires
        0 < count <= pages.len(),
    ensures
        memory.partly_cloned(pages, count) == (Memory {
            pages: memory.pages,
            table: memory.partly_cloned(pages, count - 1).table.insert(
                pages[count - 1].0@,
                memory.copied_entry(pages[count - 1].0@),
            ),
        }),
{
    let new = memory.partly_cloned(pages, count).table;
    let old_table = memory.partly_cloned(pages, count - 1).table;
    let page = pages[count - 1].0@;
    assert forall|q: u64| #[trigger] new.contains_key(q) <==> old_table.contains_key(q) || q
        == page by {
        if new.contains_key(q) {
            let k = choose|k: int| 0 <= k < count && (#[trigger] pages[k]).0@ == q;
            if k < count - 1 {
                assert(pages[k].0@ == q);
            }
        }
        assert(pages[count - 1].0@ == page);
    }
    assert(new =~= old_table.insert(page, memory.copied_entry(page)));
}

} // verus!
