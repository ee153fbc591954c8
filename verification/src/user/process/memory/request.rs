//! Adding mappings to an address space.
use vstd::prelude::*;

use crate::addr::{self, Page, VirtAddr, LOWER_HALF_END, LOWER_HALF_LAST_PAGE, PAGE_SIZE};
use crate::error::Error;
use crate::fs::node::FileSnapshot;
use crate::user::process::memory::mapping::{
    self, Backing, FileBacking, Mapping, MemoryPermissions, PageInfo,
};
use crate::user::process::memory::state::{self, Memory};
use crate::user::process::memory::{self, ActiveVirtualMemory, VirtualMemory};

verus! {

/// A mapping that is about to be added.
pub struct Request {
    /// Where the mapping starts.
    pub address: int,
    /// The length of the mapping.
    pub len: int,
    /// What may be done with the memory.
    pub permissions: MemoryPermissions,
    /// Where the content comes from.
    pub backing: Backing,
}

impl Request {
    /// Where the mapping ends.
    pub open spec fn end(self) -> int {
        self.address + self.len
    }

    /// Whether the mapping starts in the middle of a page.
    pub open spec fn has_head(self) -> bool {
        self.address % PAGE_SIZE as int != 0
    }

    /// The page that the mapping starts in the middle of.
    pub open spec fn head_page(self) -> u64 {
        memory::page_start(self.address) as u64
    }

    /// How much of the mapping is in that page.
    pub open spec fn head_len(self) -> int {
        let rest = PAGE_SIZE - self.address % PAGE_SIZE as int;
        if self.len < rest {
            self.len
        } else {
            rest
        }
    }

    /// Whether the mapping ends in the middle of a page that it doesn't start in the middle of.
    pub open spec fn has_tail(self) -> bool {
        self.end() % PAGE_SIZE as int != 0 && !(self.has_head() && memory::page_start(self.end())
            == memory::page_start(self.address))
    }

    /// The page that the mapping ends in the middle of.
    pub open spec fn tail_page(self) -> u64 {
        memory::page_start(self.end()) as u64
    }

    /// How much of the mapping is in that page.
    pub open spec fn tail_len(self) -> int {
        self.end() % PAGE_SIZE as int
    }

    /// Where the whole pages of the mapping start.
    pub open spec fn inner_start(self) -> int {
        state::unmap_start(self.address)
    }

    /// Where the whole pages of the mapping end.
    pub open spec fn inner_end(self) -> int {
        memory::page_start(self.end())
    }

    /// The memory after what's in the way has been unmapped and the first page has been handled.
    pub open spec fn after_head(self, memory: Memory) -> Memory {
        let memory = memory.without(self.address, self.len);
        if self.has_head() {
            memory.bordered(
                self.head_page(),
                self.permissions,
                self.address % PAGE_SIZE as int,
                self.backing.initial_memory(0, self.head_len()),
            )
        } else {
            memory
        }
    }

    /// Whether the first page can be handled.
    pub open spec fn head_ok(self, memory: Memory) -> bool {
        self.has_head() ==> memory.without(self.address, self.len).can_border(
            self.head_page(),
            self.permissions,
        )
    }

    /// The memory after the last page has been handled.
    pub open spec fn with_tail(self, memory: Memory) -> Memory {
        if self.has_tail() {
            memory.bordered(
                self.tail_page(),
                self.permissions,
                0,
                self.backing.initial_memory(self.len - self.tail_len(), self.tail_len()),
            )
        } else {
            memory
        }
    }

    /// Whether the last page can be handled.
    pub open spec fn tail_ok(self, memory: Memory) -> bool {
        self.has_tail() ==> memory.can_border(self.tail_page(), self.permissions)
    }

    /// Whether the content that the last page needs exists.
    pub open spec fn tail_valid(self, memory: Memory) -> bool {
        self.has_tail() ==> {
            &&& self.backing.has_initial_memory(self.len - self.tail_len(), self.tail_len())
            &&& memory.border_fillable(self.tail_page(), self.permissions)
        }
    }

    /// The memory after the first and the last page have been handled.
    pub open spec fn after_tail(self, memory: Memory) -> Memory {
        self.with_tail(self.after_head(memory))
    }

    /// Whether the mapping can be added. The pages that the mapping only contains a part of have to
    /// be readable.
    pub open spec fn ok(self, memory: Memory) -> bool {
        self.head_ok(memory) && self.tail_ok(self.after_head(memory))
    }

    /// Whether a mapping is the one for the whole pages.
    pub open spec fn is_inner(self, mapping: Mapping) -> bool {
        &&& mapping.start@ == self.inner_start()
        &&& mapping.end_address() == self.inner_end()
        &&& mapping.permissions == self.permissions
        &&& forall|at: int| #[trigger]
            mapping.backing.source(at) == self.backing.source(
                self.inner_start() - self.address + at,
            )
    }

    /// The memory after the mapping has been added.
    #[verifier::opaque]
    pub open spec fn added(self, memory: Memory) -> Memory {
        if !self.head_ok(memory) {
            self.after_head(memory)
        } else if !self.ok(memory) {
            self.after_tail(memory)
        } else {
            let memory = self.after_tail(memory);
            Memory {
                pages: Map::new(
                    |page: u64|
                        memory.pages.contains_key(page) || (addr::is_page(page)
                            && self.inner_start() <= page < self.inner_end()),
                    |page: u64|
                        if self.inner_start() <= page < self.inner_end() {
                            PageInfo {
                                start: self.inner_start(),
                                end: self.inner_end(),
                                permissions: self.permissions,
                                source: self.backing.source(page - self.address),
                            }
                        } else {
                            memory.pages[page]
                        },
                ),
                table: memory.table,
            }
        }
    }

    /// Whether the mapping is in one half of the address space and all content that is needed at
    /// once exists.
    pub open spec fn valid(self, memory: Memory) -> bool {
        &&& mapping::is_range(self.address, self.len)
        &&& self.backing.reaches(self.len)
        &&& self.has_head() ==> {
            &&& self.backing.has_initial_memory(0, self.head_len())
            &&& memory.without(self.address, self.len).border_fillable(
                self.head_page(),
                self.permissions,
            )
        }
        &&& self.head_ok(memory) ==> self.tail_valid(self.after_head(memory))
    }
}

impl VirtualMemory {
    /// Makes space for a mapping and maps the page that it starts in the middle of.
    fn map_head(
        &mut self,
        addr: VirtAddr,
        len: u64,
        permissions: MemoryPermissions,
        backing: &Backing,
    ) -> (res: Result<(), Error>)
        requires
            old(self).wf(),
            addr.wf(),
            request(addr, len, permissions, *backing).valid(old(self).memory()),
        ensures
            final(self).wf(),
            final(self).root_frame() == old(self).root_frame(),
            final(self).context_id() == old(self).context_id(),
            res == (if request(addr, len, permissions, *backing).head_ok(old(self).memory()) {
                Ok::<(), Error>(())
            } else {
                Err(Error::Fault)
            }),
            final(self).memory() == request(addr, len, permissions, *backing).after_head(
                old(self).memory(),
            ),
    {
        self.unmap(addr, len);
        let start_offset: u64 = addr.page_offset();
        if start_offset == 0 {
            return Ok(());
        }
        let rest: u64 = PAGE_SIZE - start_offset;
        let unaligned_len: u64 = if len < rest {
            len
        } else {
            rest
        };
        self.map_unaligned(addr, unaligned_len, backing, 0, permissions)
    }

    /// Maps the page that a mapping ends in the middle of.
    fn map_tail(
        &mut self,
        addr: VirtAddr,
        len: u64,
        permissions: MemoryPermissions,
        backing: &Backing,
    ) -> (res: Result<(), Error>)
        requires
            old(self).wf(),
            mapping::is_range(addr@ as int, len as int),
            request(addr, len, permissions, *backing).tail_valid(old(self).memory()),
        ensures
            final(self).wf(),
            final(self).root_frame() == old(self).root_frame(),
            final(self).context_id() == old(self).context_id(),
            res == (if request(addr, len, permissions, *backing).tail_ok(old(self).memory()) {
                Ok::<(), Error>(())
            } else {
                Err(Error::Fault)
            }),
            final(self).memory() == request(addr, len, permissions, *backing).with_tail(
                old(self).memory(),
            ),
    {
        let start: u64 = addr.as_u64();
        let end: u64 = start + len;
        let start_offset: u64 = start % PAGE_SIZE;
        let end_offset: u64 = end % PAGE_SIZE;
        if end_offset == 0 || (start_offset != 0 && end - end_offset == start - start_offset) {
            return Ok(());
        }
        let tail: VirtAddr = VirtAddr::new(end - end_offset);
        self.map_unaligned(tail, end_offset, backing, len - end_offset, permissions)
    }

    /// Adds a mapping at an address.
    fn add_mapping_at(
        &mut self,
        addr: VirtAddr,
        len: u64,
        permissions: MemoryPermissions,
        backing: Backing,
    ) -> (res: Result<(), Error>)
        requires
            old(self).wf(),
            addr.wf(),
            request(addr, len, permissions, backing).valid(old(self).memory()),
        ensures
            final(self).wf(),
            final(self).root_frame() == old(self).root_frame(),
            final(self).context_id() == old(self).context_id(),
            res == (if request(addr, len, permissions, backing).ok(old(self).memory()) {
                Ok::<(), Error>(())
            } else {
                Err(Error::Fault)
            }),
            final(self).memory() == request(addr, len, permissions, backing).added(
                old(self).memory(),
            ),
    {
        let ghost memory = self.memory();
        let ghost wanted = request(addr, len, permissions, backing);
        proof {
            lemma_refused(wanted, memory);
        }
        // If the mapping isn't page aligned, immediately map pages for the unaligned start and end.
        match self.map_head(addr, len, permissions, &backing) {
            Ok(()) => {},
            Err(err) => {
                return Err(err);
            },
        }
        match self.map_tail(addr, len, permissions, &backing) {
            Ok(()) => {},
            Err(err) => {
                return Err(err);
            },
        }
        match inner_mapping(addr, len, permissions, backing) {
            Some(mapping) => {
                proof {
                    lemma_inner_is_free(wanted, memory, self.memory());
                    lemma_added(wanted, memory, mapping);
                }
                self.push_mapping(mapping);
            },
            None => {
                proof {
                    lemma_added_ends(wanted, memory);
                }
            },
        }
        Ok(())
    }
}

/// The mapping for the whole pages of a range, if there are any.
fn inner_mapping(
    addr: VirtAddr,
    len: u64,
    permissions: MemoryPermissions,
    backing: Backing,
) -> (res: Option<Mapping>)
    requires
        addr.wf(),
        mapping::is_range(addr@ as int, len as int),
        backing.reaches(len as int),
    ensures
        ({
            let wanted = request(addr, len, permissions, backing);
            match res {
                Some(mapping) => {
                    &&& mapping.wf()
                    &&& wanted.inner_start() < wanted.inner_end()
                    &&& wanted.is_inner(mapping)
                },
                None => wanted.inner_end() <= wanted.inner_start(),
            }
        }),
{
    let start: u64 = addr.as_u64();
    let end: u64 = start + len;
    let first: u64 = if start % PAGE_SIZE == 0 {
        start
    } else {
        start - start % PAGE_SIZE + PAGE_SIZE
    };
    let last: u64 = end - end % PAGE_SIZE;
    if last <= first {
        return None;
    }
    let ghost wanted = request(addr, len, permissions, backing);
    assert(first == wanted.inner_start() && last == wanted.inner_end());
    assert(first % PAGE_SIZE == 0 && last % PAGE_SIZE == 0);
    let num_pages: u64 = (last - first) / PAGE_SIZE;
    assert(num_pages * PAGE_SIZE == last - first);
    let page: Page = Page::containing_address(VirtAddr::new(first));
    assert(page@ == first);
    let mut backing: Backing = backing;
    let inner_backing: Backing = backing.split(first - start);
    assert(inner_backing.reaches(last - first));
    let mapping: Mapping = Mapping { start: page, num_pages, permissions, backing: inner_backing };
    assert(mapping.end_address() == last);
    assert(mapping.wf());
    assert(wanted.is_inner(mapping));
    Some(mapping)
}

/// A mapping that is about to be added.
pub open spec fn request(
    addr: VirtAddr,
    len: u64,
    permissions: MemoryPermissions,
    backing: Backing,
) -> Request {
    Request { address: addr@ as int, len: len as int, permissions, backing }
}

/// Adding the whole pages completes a mapping.
proof fn lemma_added(wanted: Request, memory: Memory, mapping: Mapping)
    requires
        wanted.ok(memory),
        wanted.is_inner(mapping),
    ensures
        wanted.added(memory) == (Memory {
            pages: state::with_mapping(wanted.after_tail(memory).pages, mapping),
            table: wanted.after_tail(memory).table,
        }),
{
    reveal(Request::added);
    assert(wanted.added(memory).pages =~= state::with_mapping(
        wanted.after_tail(memory).pages,
        mapping,
    ));
}

/// A mapping without whole pages is complete once its ends have been handled.
proof fn lemma_added_ends(wanted: Request, memory: Memory)
    requires
        wanted.ok(memory),
        wanted.inner_end() <= wanted.inner_start(),
    ensures
        wanted.added(memory) == wanted.after_tail(memory),
{
    reveal(Request::added);
    assert(wanted.added(memory).pages =~= wanted.after_tail(memory).pages);
}

/// What is left behind by a mapping that can't be added.
proof fn lemma_refused(wanted: Request, memory: Memory)
    ensures
        !wanted.head_ok(memory) ==> wanted.added(memory) == wanted.after_head(memory),
        wanted.head_ok(memory) && !wanted.ok(memory) ==> wanted.added(memory) == wanted.after_tail(
            memory,
        ),
{
    reveal(Request::added);
}

/// Handling the first and the last page of a mapping leaves its whole pages free.
proof fn lemma_inner_is_free(request: Request, memory: Memory, after: Memory)
    requires
        mapping::is_range(request.address, request.len),
        request.inner_start() < request.inner_end(),
        after == request.after_tail(memory),
    ensures
        forall|page: u64| #[trigger]
            after.pages.contains_key(page) ==> !(request.inner_start() <= page
                < request.inner_end()),
{
    reveal(Memory::without);
    reveal(Memory::bordered);
    let start = request.inner_start();
    let end = request.inner_end();
    let m1 = memory.without(request.address, request.len);
    assert(state::unmap_end(request.address, request.len) == end);
    assert forall|page: u64| #[trigger] m1.pages.contains_key(page) implies !(start <= page
        < end) by {}
    let m2 = request.after_head(memory);
    assert forall|page: u64| #[trigger] m2.pages.contains_key(page) implies !(start <= page
        < end) by {
        if page != request.head_page() {
            assert(m1.pages.contains_key(page));
        }
    }
    let m3 = request.after_tail(memory);
    assert forall|page: u64| #[trigger] m3.pages.contains_key(page) implies !(start <= page
        < end) by {
        if page != request.tail_page() {
            assert(m2.pages.contains_key(page));
        }
    }
}

/// Whether a mapping may be added, at an address or anywhere. Somewhere in the lower half, there has to
/// be a place for it.
pub open spec fn may_add(
    memory: Memory,
    addr: Option<VirtAddr>,
    len: u64,
    permissions: MemoryPermissions,
    backing: Backing,
) -> bool {
    &&& len < LOWER_HALF_END
    &&& match addr {
        Some(addr) => request(addr, len, permissions, backing).valid(memory),
        None => {
            &&& len <= LOWER_HALF_LAST_PAGE
            &&& backing.reaches(len as int)
            &&& len % PAGE_SIZE != 0 ==> backing.has_initial_memory(
                len - len % PAGE_SIZE,
                (len % PAGE_SIZE) as int,
            )
        },
    }
}

/// The outcome of adding a mapping at an address.
pub open spec fn placed(
    memory: Memory,
    addr: VirtAddr,
    len: u64,
    permissions: MemoryPermissions,
    backing: Backing,
    new_memory: Memory,
    res: Result<VirtAddr, Error>,
) -> bool {
    &&& new_memory == request(addr, len, permissions, backing).added(memory)
    &&& res == if request(addr, len, permissions, backing).ok(memory) {
        Ok(addr)
    } else {
        Err(Error::Fault)
    }
}

/// Whether an address is the start of a free range in the lower half.
pub open spec fn is_free_address(memory: Memory, addr: VirtAddr, len: u64) -> bool {
    &&& addr.wf()
    &&& addr@ % PAGE_SIZE == 0
    &&& addr@ + len <= LOWER_HALF_LAST_PAGE
    &&& state::is_free(memory.pages, addr@ as int, len as int)
}

/// The outcome of adding a mapping, at an address or anywhere. If no address is given, a free one
/// is chosen by chance. Not finding one is the only way to run out of memory.
pub open spec fn add_result(
    memory: Memory,
    addr: Option<VirtAddr>,
    len: u64,
    permissions: MemoryPermissions,
    backing: Backing,
    new_memory: Memory,
    res: Result<VirtAddr, Error>,
) -> bool {
    match addr {
        Some(addr) => placed(memory, addr, len, permissions, backing, new_memory, res),
        None => {
            ||| res == Err::<VirtAddr, Error>(Error::NoMem) && new_memory == memory
            ||| exists|addr: VirtAddr| #[trigger]
                is_free_address(memory, addr, len) && placed(
                    memory,
                    addr,
                    len,
                    permissions,
                    backing,
                    new_memory,
                    res,
                )
        },
    }
}

/// A mapping can be added to a free range.
proof fn lemma_free_is_valid(
    memory: Memory,
    addr: VirtAddr,
    len: u64,
    permissions: MemoryPermissions,
    backing: Backing,
)
    requires
        is_free_address(memory, addr, len),
        may_add(memory, None, len, permissions, backing),
    ensures
        request(addr, len, permissions, backing).valid(memory),
{
    reveal(Memory::without);
    let wanted = request(addr, len, permissions, backing);
    let without = memory.without(addr@ as int, len as int);
    if wanted.has_tail() {
        assert(wanted.tail_len() == len % PAGE_SIZE);
        assert(!without.pages.contains_key(wanted.tail_page())) by {
            if memory.pages.contains_key(wanted.tail_page()) {
                assert(addr@ <= wanted.tail_page() < addr@ + len);
            }
        }
    }
}

impl<'b> ActiveVirtualMemory<'b> {
    /// Adds a mapping at an address, or anywhere.
    fn add_mapping(
        &mut self,
        addr: Option<VirtAddr>,
        len: u64,
        permissions: MemoryPermissions,
        backing: Backing,
    ) -> (res: Result<VirtAddr, Error>)
        requires
            old(self).wf(),
            may_add(old(self).memory(), addr, len, permissions, backing),
        ensures
            final(self).wf(),
            final(self).same_space(*old(self)),
            *final(final(self).virtual_memory) == *final(old(self).virtual_memory),
            add_result(
                old(self).memory(),
                addr,
                len,
                permissions,
                backing,
                final(self).memory(),
                res,
            ),
    {
        let ghost memory = self.memory();
        let start: VirtAddr = match addr {
            Some(addr) => {
                proof {
                    use_type_invariant(&addr);
                }
                addr
            },
            None => match self.virtual_memory.find_free_address(len) {
                Some(addr) => {
                    proof {
                        assert(is_free_address(memory, addr, len));
                        lemma_free_is_valid(memory, addr, len, permissions, backing);
                    }
                    addr
                },
                None => {
                    return Err(Error::NoMem);
                },
            },
        };
        match self.virtual_memory.add_mapping_at(start, len, permissions, backing) {
            Ok(()) => Ok(start),
            Err(err) => Err(err),
        }
    }

    /// Adds a stack.
    pub fn allocate_stack(&mut self, addr: Option<VirtAddr>, len: u64) -> (res: Result<
        VirtAddr,
        Error,
    >)
        requires
            old(self).wf(),
            may_add(
                old(self).memory(),
                addr,
                len,
                (MemoryPermissions { execute: false, write: true, read: true }),
                Backing::Stack,
            ),
        ensures
            final(self).wf(),
            final(self).same_space(*old(self)),
            *final(final(self).virtual_memory) == *final(old(self).virtual_memory),
            add_result(
                old(self).memory(),
                addr,
                len,
                (MemoryPermissions { execute: false, write: true, read: true }),
                Backing::Stack,
                final(self).memory(),
                res,
            ),
    {
        let permissions = MemoryPermissions { execute: false, write: true, read: true };
        self.add_mapping(addr, len, permissions, Backing::Stack)
    }

    /// Maps a part of a file.
    pub fn mmap_into(
        &mut self,
        addr: Option<VirtAddr>,
        len: u64,
        offset: u64,
        bytes: FileSnapshot,
        permissions: MemoryPermissions,
    ) -> (res: Result<VirtAddr, Error>)
        requires
            old(self).wf(),
            may_add(
                old(self).memory(),
                addr,
                len,
                permissions,
                Backing::File((FileBacking { offset, bytes })),
            ),
        ensures
            final(self).wf(),
            final(self).same_space(*old(self)),
            *final(final(self).virtual_memory) == *final(old(self).virtual_memory),
            add_result(
                old(self).memory(),
                addr,
                len,
                permissions,
                Backing::File((FileBacking { offset, bytes })),
                final(self).memory(),
                res,
            ),
    {
        self.add_mapping(addr, len, permissions, Backing::File(FileBacking { offset, bytes }))
    }

    /// Maps memory that starts out as zero.
    pub fn mmap_zero(
        &mut self,
        addr: Option<VirtAddr>,
        len: u64,
        permissions: MemoryPermissions,
    ) -> (res: Result<VirtAddr, Error>)
        requires
            old(self).wf(),
            may_add(old(self).memory(), addr, len, permissions, Backing::Zero),
        ensures
            final(self).wf(),
            final(self).same_space(*old(self)),
            *final(final(self).virtual_memory) == *final(old(self).virtual_memory),
            add_result(
                old(self).memory(),
                addr,
                len,
                permissions,
                Backing::Zero,
                final(self).memory(),
                res,
            ),
    {
        self.add_mapping(addr, len, permissions, Backing::Zero)
    }
}

} // verus!
