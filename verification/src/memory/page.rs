//! Pages that are shared until they are modified.
//!
//! Pages are referred to by their address in the kernel's half of the address space.
use std::collections::BTreeMap;
use vstd::prelude::*;

use crate::addr::{self, PhysFrame, PAGE_SIZE};
use crate::error::Error;
use crate::memory::pagetable::{self, PageTableFlags};
use crate::user::process::memory::mapping::MemoryPermissions;

verus! {

/// Where the physical memory of the heap starts in the kernel's half of the address space.
pub const HEAP_BASE: u64 = 0xffff_8080_0000_0000;

/// The memory of a page.
pub struct PageContent {
    bytes: Vec<u8>,
    references: u64,
}

/// What is known about the memory of a page.
#[verifier::ext_equal]
pub struct Content {
    /// The content.
    pub bytes: Seq<u8>,
    /// How many pages refer to the memory.
    pub references: int,
}

/// The memory of all pages.
pub struct PageHeap {
    pages: BTreeMap<u64, PageContent>,
}

impl View for PageHeap {
    type V = Map<u64, Content>;

    closed spec fn view(&self) -> Map<u64, Content> {
        self.pages@.map_values(
            |content: PageContent|
                Content { bytes: content.bytes@, references: content.references as int },
        )
    }
}

impl PageHeap {
    /// All memory has the size of a page and is referred to.
    pub open spec fn wf(self) -> bool {
        forall|address: u64| #[trigger]
            self@.contains_key(address) ==> self@[address].bytes.len() == PAGE_SIZE
                && 1 <= self@[address].references <= u64::MAX
    }

    /// Creates a heap without pages.
    pub fn new() -> (res: Self)
        ensures
            res.wf(),
            res@ == Map::<u64, Content>::empty(),
    {
        let res = PageHeap { pages: BTreeMap::new() };
        assert(res@ =~= Map::empty());
        res
    }

    /// Adds memory that a single page refers to.
    fn add_page(&mut self, address: u64, bytes: Vec<u8>)
        requires
            old(self).wf(),
            bytes@.len() == PAGE_SIZE,
        ensures
            final(self).wf(),
            final(self)@ == old(self)@.insert(address, (Content { bytes: bytes@, references: 1 })),
    {
        let ghost content = bytes@;
        self.pages.insert(address, PageContent { bytes, references: 1 });
        assert(self@ =~= old(self)@.insert(address, Content { bytes: content, references: 1 }));
    }

    /// Removes memory.
    fn remove_page(&mut self, address: u64)
        requires
            old(self).wf(),
        ensures
            final(self).wf(),
            final(self)@ == old(self)@.remove(address),
    {
        self.pages.remove(&address);
        assert(self@ =~= old(self)@.remove(address));
    }

    /// Changes how many pages refer to some memory.
    fn set_references(&mut self, address: u64, references: u64)
        requires
            old(self).wf(),
            old(self)@.contains_key(address),
            references > 0,
        ensures
            final(self).wf(),
            final(self)@ == old(self)@.insert(
                address,
                (Content { references: references as int, ..old(self)@[address] }),
            ),
    {
        match self.pages.remove(&address) {
            Some(content) => {
                self.pages.insert(address, PageContent { bytes: content.bytes, references });
            },
            None => {},
        }
        assert(self@ =~= old(self)@.insert(
            address,
            Content { references: references as int, ..old(self)@[address] },
        ));
    }

    /// How many pages refer to some memory.
    fn references(&self, address: u64) -> (res: u64)
        requires
            self@.contains_key(address),
        ensures
            res == self@[address].references,
    {
        match self.pages.get(&address) {
            Some(content) => content.references,
            None => 0,
        }
    }

    /// Copies the content of some memory.
    pub fn copy_content(&self, address: u64) -> (res: Vec<u8>)
        requires
            self@.contains_key(address),
        ensures
            res@ == self@[address].bytes,
    {
        let mut res: Vec<u8> = Vec::new();
        match self.pages.get(&address) {
            Some(content) => {
                res.extend_from_slice(content.bytes.as_slice());
                assert(res@ =~= content.bytes@);
            },
            None => {},
        }
        res
    }

    /// Replaces the content of some memory.
    fn set_content(&mut self, address: u64, bytes: Vec<u8>)
        requires
            old(self).wf(),
            old(self)@.contains_key(address),
            bytes@.len() == PAGE_SIZE,
        ensures
            final(self).wf(),
            final(self)@ == old(self)@.insert(
                address,
                (Content { bytes: bytes@, ..old(self)@[address] }),
            ),
    {
        let ghost content = bytes@;
        match self.pages.remove(&address) {
            Some(old_content) => {
                self.pages.insert(
                    address,
                    PageContent { bytes, references: old_content.references },
                );
            },
            None => {},
        }
        assert(self@ =~= old(self)@.insert(
            address,
            Content { bytes: content, ..old(self)@[address] },
        ));
    }
}

/// A page.
pub struct KernelPage {
    /// The address of the page's memory.
    pub address: u64,
    /// Whether the pages that refer to the memory are counted.
    pub counted: bool,
}

impl KernelPage {
    /// The memory exists and is only shared if the pages that refer to it are counted.
    pub open spec fn wf(self, heap: Map<u64, Content>) -> bool {
        &&& heap.contains_key(self.address)
        &&& !self.counted ==> heap[self.address].references == 1
    }

    /// Creates a page of memory that has just been allocated, with whatever it holds.
    pub fn uninit(heap: &mut PageHeap, allocated: Option<u64>, bytes: Vec<u8>) -> (res: Result<
        Self,
        Error,
    >)
        requires
            old(heap).wf(),
            bytes@.len() == PAGE_SIZE,
            allocated matches Some(address) ==> !old(heap)@.contains_key(address),
        ensures
            final(heap).wf(),
            match allocated {
                Some(address) => {
                    &&& res matches Ok(page)
                    &&& page.address == address
                    &&& page.counted == false
                    &&& page.wf(final(heap)@)
                    &&& final(heap)@ == old(heap)@.insert(
                        address,
                        (Content { bytes: bytes@, references: 1 }),
                    )
                },
                None => res == Err::<Self, Error>(Error::NoMem) && final(heap)@ == old(heap)@,
            },
    {
        match allocated {
            Some(address) => {
                heap.add_page(address, bytes);
                Ok(KernelPage { address, counted: false })
            },
            None => Err(Error::NoMem),
        }
    }

    /// Creates a page of zeros from memory that has just been allocated.
    pub fn zeroed(heap: &mut PageHeap, allocated: Option<u64>) -> (res: Result<Self, Error>)
        requires
            old(heap).wf(),
            allocated matches Some(address) ==> !old(heap)@.contains_key(address),
        ensures
            final(heap).wf(),
            match allocated {
                Some(address) => {
                    &&& res matches Ok(page)
                    &&& page.address == address
                    &&& page.counted == false
                    &&& page.wf(final(heap)@)
                    &&& final(heap)@ == old(heap)@.insert(
                        address,
                        (Content {
                            bytes: Seq::new(PAGE_SIZE as nat, |i: int| 0u8),
                            references: 1,
                        }),
                    )
                },
                None => res == Err::<Self, Error>(Error::NoMem) && final(heap)@ == old(heap)@,
            },
    {
        let mut bytes: Vec<u8> = Vec::new();
        bytes.resize(pagetable::PAGE_LEN, 0);
        assert(bytes@ =~= Seq::new(PAGE_SIZE as nat, |i: int| 0u8));
        KernelPage::uninit(heap, allocated, bytes)
    }

    /// Creates a shallow copy of the page. From then on the pages that refer to the memory are
    /// counted, for which memory has to be allocated.
    pub fn clone(&mut self, heap: &mut PageHeap, counter_allocated: bool) -> (res: Result<
        Self,
        Error,
    >)
        requires
            old(heap).wf(),
            old(self).wf(old(heap)@),
            old(heap)@[old(self).address].references < u64::MAX,
        ensures
            final(heap).wf(),
            final(self).wf(final(heap)@),
            final(self).address == old(self).address,
            if old(self).counted || counter_allocated {
                &&& res matches Ok(page)
                &&& page.address == old(self).address
                &&& page.counted
                &&& page.wf(final(heap)@)
                &&& final(self).counted
                &&& final(heap)@ == with_reference(old(heap)@, old(self).address)
            } else {
                &&& res == Err::<Self, Error>(Error::NoMem)
                &&& final(self).counted == old(self).counted
                &&& final(heap)@ == old(heap)@
            },
    {
        if !self.counted {
            // Initialize the reference count.
            if !counter_allocated {
                return Err(Error::NoMem);
            }
            self.counted = true;
        }
        // Increase the reference count.
        let references: u64 = heap.references(self.address);
        heap.set_references(self.address, references + 1);
        Ok(KernelPage { address: self.address, counted: true })
    }

    /// Returns whether the page's content may be modified.
    pub fn mutable(&self) -> (res: bool)
        ensures
            res == !self.counted,
    {
        !self.counted
    }

    /// Makes sure that the page's content may be modified. If other pages refer to the memory, it
    /// is copied to memory that has just been allocated.
    pub fn make_mut(&mut self, heap: &mut PageHeap, allocated: Option<u64>) -> (res: Result<
        (),
        Error,
    >)
        requires
            old(heap).wf(),
            old(self).wf(old(heap)@),
            allocated matches Some(address) ==> !old(heap)@.contains_key(address),
        ensures
            final(heap).wf(),
            final(self).wf(final(heap)@),
            made_mutable(*old(self), old(heap)@, allocated, *final(self), final(heap)@, res),
    {
        if !self.counted {
            // If there is no reference count, we don't need to do anything.
            return Ok(());
        }
        let references: u64 = heap.references(self.address);
        if references == 1 {
            // If the reference count is one, we can take ownership of the memory.
            self.counted = false;
            return Ok(());
        }
        let address: u64 = match allocated {
            Some(address) => address,
            None => {
                return Err(Error::NoMem);
            },
        };
        // Copy the memory to the new allocation.
        let bytes: Vec<u8> = heap.copy_content(self.address);
        heap.set_references(self.address, references - 1);
        heap.add_page(address, bytes);
        // Replace the page with the new allocation.
        self.address = address;
        self.counted = false;
        Ok(())
    }

    /// The page's content for reading.
    pub fn content(&self) -> (res: VolatileBytes<ReadOnly>)
        ensures
            res.address == self.address,
    {
        VolatileBytes { access: ReadOnly {  }, address: self.address }
    }

    /// The page's content for reading and writing. It is made modifiable first.
    pub fn content_make_mut(&mut self, heap: &mut PageHeap, allocated: Option<u64>) -> (res: Result<
        VolatileBytes<ReadWrite>,
        Error,
    >)
        requires
            old(heap).wf(),
            old(self).wf(old(heap)@),
            allocated matches Some(address) ==> !old(heap)@.contains_key(address),
        ensures
            final(heap).wf(),
            final(self).wf(final(heap)@),
            made_mutable(
                *old(self),
                old(heap)@,
                allocated,
                *final(self),
                final(heap)@,
                match res {
                    Ok(_) => Ok(()),
                    Err(err) => Err(err),
                },
            ),
            res matches Ok(bytes) ==> bytes.address == final(self).address,
    {
        match self.make_mut(heap, allocated) {
            Ok(()) => Ok(VolatileBytes { access: ReadWrite {  }, address: self.address }),
            Err(err) => Err(err),
        }
    }

    /// The frame of the page.
    pub fn frame(&self) -> (res: PhysFrame)
        requires
            self.address >= HEAP_BASE,
            addr::is_frame(self.address - HEAP_BASE),
        ensures
            res@ == self.address - HEAP_BASE,
    {
        PhysFrame::from_start_address(self.address - HEAP_BASE).unwrap()
    }

    /// Gives the page up. Returns the address of its memory if that isn't needed any more and has to
    /// be freed.
    pub fn release(self, heap: &mut PageHeap) -> (res: Option<u64>)
        requires
            old(heap).wf(),
            self.wf(old(heap)@),
        ensures
            final(heap).wf(),
            final(heap)@ == without_reference(old(heap)@, self.address),
            res == if old(heap)@[self.address].references == 1 {
                Some(self.address)
            } else {
                None
            },
    {
        if self.counted {
            // Decrease the reference count.
            let references: u64 = heap.references(self.address);
            // Don't free any memory if the reference count didn't hit 0.
            if references != 1 {
                heap.set_references(self.address, references - 1);
                return None;
            }
        }
        // Free the page's memory.
        heap.remove_page(self.address);
        Some(self.address)
    }
}

/// The memory after another page refers to some of it.
pub open spec fn with_reference(heap: Map<u64, Content>, address: u64) -> Map<u64, Content> {
    heap.insert(
        address,
        Content { references: heap[address].references + 1, ..heap[address] },
    )
}

/// The memory after a page doesn't refer to some of it any more. If no page does, it's gone.
pub open spec fn without_reference(heap: Map<u64, Content>, address: u64) -> Map<u64, Content> {
    if heap[address].references == 1 {
        heap.remove(address)
    } else {
        heap.insert(
            address,
            Content { references: heap[address].references - 1, ..heap[address] },
        )
    }
}

/// Giving a shallow copy up undoes its creation.
pub proof fn law_release_undoes_clone(heap: Map<u64, Content>, address: u64)
    requires
        heap.contains_key(address),
        heap[address].references >= 1,
    ensures
        without_reference(with_reference(heap, address), address) == heap,
{
    assert(without_reference(with_reference(heap, address), address) =~= heap);
}

/// The outcome of making a page's content modifiable.
pub open spec fn made_mutable(
    page: KernelPage,
    heap: Map<u64, Content>,
    allocated: Option<u64>,
    new_page: KernelPage,
    new_heap: Map<u64, Content>,
    res: Result<(), Error>,
) -> bool {
    let content = heap[page.address];
    if !page.counted || content.references == 1 {
        &&& res == Ok::<(), Error>(())
        &&& new_page == (KernelPage { counted: false, ..page })
        &&& new_heap == heap
    } else {
        match allocated {
            None => {
                &&& res == Err::<(), Error>(Error::NoMem)
                &&& new_page == page
                &&& new_heap == heap
            },
            Some(address) => {
                &&& res == Ok::<(), Error>(())
                &&& new_page == (KernelPage { address, counted: false })
                &&& new_heap == heap.insert(
                    page.address,
                    Content { references: content.references - 1, ..content },
                ).insert(address, Content { bytes: content.bytes, references: 1 })
            },
        }
    }
}

/// A page that user space has access to.
pub struct UserPage {
    /// What user space may do with the page.
    pub perms: MemoryPermissions,
    /// The page.
    pub page: KernelPage,
}

impl UserPage {
    /// The frame and the attributes that the page has in a page table.
    pub fn entry(&self) -> (res: (PhysFrame, PageTableFlags))
        requires
            self.page.address >= HEAP_BASE,
            addr::is_frame(self.page.address - HEAP_BASE),
        ensures
            res.0@ == self.page.address - HEAP_BASE,
            res.1 == (PageTableFlags {
                user: true,
                writable: self.perms.write && !self.page.counted,
                executable: self.perms.execute,
                ..PageTableFlags::none()
            }),
    {
        let mut flags: PageTableFlags = PageTableFlags::empty();
        flags.user = true;
        flags.writable = self.perms.write && self.page.mutable();
        flags.executable = self.perms.execute;
        (self.page.frame(), flags)
    }

    /// The page's content for reading.
    pub fn content(&self) -> (res: VolatileBytes<ReadOnly>)
        ensures
            res.address == self.page.address,
    {
        self.page.content()
    }

    /// The page's content for reading and writing. It is made modifiable first.
    pub fn content_make_mut(&mut self, heap: &mut PageHeap, allocated: Option<u64>) -> (res: Result<
        VolatileBytes<ReadWrite>,
        Error,
    >)
        requires
            old(heap).wf(),
            old(self).page.wf(old(heap)@),
            allocated matches Some(address) ==> !old(heap)@.contains_key(address),
        ensures
            final(heap).wf(),
            final(self).page.wf(final(heap)@),
            final(self).perms == old(self).perms,
            made_mutable(
                old(self).page,
                old(heap)@,
                allocated,
                final(self).page,
                final(heap)@,
                match res {
                    Ok(_) => Ok(()),
                    Err(err) => Err(err),
                },
            ),
            res matches Ok(bytes) ==> bytes.address == final(self).page.address,
    {
        self.page.content_make_mut(heap, allocated)
    }

    /// Makes sure that the page's content may be modified.
    pub fn make_mut(&mut self, heap: &mut PageHeap, allocated: Option<u64>) -> (res: Result<
        (),
        Error,
    >)
        requires
            old(heap).wf(),
            old(self).page.wf(old(heap)@),
            allocated matches Some(address) ==> !old(heap)@.contains_key(address),
        ensures
            final(heap).wf(),
            final(self).page.wf(final(heap)@),
            final(self).perms == old(self).perms,
            made_mutable(
                old(self).page,
                old(heap)@,
                allocated,
                final(self).page,
                final(heap)@,
                res,
            ),
    {
        self.page.make_mut(heap, allocated)
    }

    /// What user space may do with the page.
    pub fn perms(&self) -> (res: MemoryPermissions)
        ensures
            res == self.perms,
    {
        self.perms
    }

    /// Changes what user space may do with the page.
    pub fn set_perms(&mut self, perms: MemoryPermissions)
        ensures
            final(self).perms == perms,
            final(self).page == old(self).page,
    {
        self.perms = perms;
    }
}

/// Access for reading.
#[derive(Clone, Copy, PartialEq, Eq, Structural, Debug)]
pub struct ReadOnly {}

/// Access for reading and writing.
#[derive(Clone, Copy, PartialEq, Eq, Structural, Debug)]
pub struct ReadWrite {}

/// A view into the bytes of a page.
#[derive(Clone, Copy, PartialEq, Eq, Structural, Debug)]
pub struct VolatileBytes<A> {
    /// What may be done with the bytes.
    pub access: A,
    /// The address of the page's memory.
    pub address: u64,
}

/// An end of a range.
#[derive(Clone, Copy, PartialEq, Eq, Structural, Debug)]
pub enum RangeBound {
    /// The index is part of the range.
    Included(usize),
    /// The index isn't part of the range.
    Excluded(usize),
    /// The range goes on to the end of the page.
    Unbounded,
}

/// Where a range starts.
pub open spec fn range_start(bound: RangeBound) -> int {
    match bound {
        RangeBound::Included(idx) => idx as int,
        RangeBound::Excluded(idx) => idx + 1,
        RangeBound::Unbounded => 0,
    }
}

/// Where a range ends.
pub open spec fn range_end(bound: RangeBound) -> int {
    match bound {
        RangeBound::Included(idx) => idx + 1,
        RangeBound::Excluded(idx) => idx as int,
        RangeBound::Unbounded => 0x1000,
    }
}

impl<A> VolatileBytes<A> {
    /// The address and the length of a range of the bytes. A range that ends before it starts is
    /// empty.
    pub fn index(self, start: RangeBound, end: RangeBound) -> (res: (u64, usize))
        requires
            range_start(start) < 0x1000,
            range_end(end) <= 0x1000,
            self.address + 0x1000 <= u64::MAX,
        ensures
            res.0 == self.address + range_start(start),
            res.1 == if range_end(end) < range_start(start) {
                0
            } else {
                range_end(end) - range_start(start)
            },
    {
        let start: usize = match start {
            RangeBound::Included(idx) => idx,
            RangeBound::Excluded(idx) => idx + 1,
            RangeBound::Unbounded => 0,
        };
        let end: usize = match end {
            RangeBound::Included(idx) => idx + 1,
            RangeBound::Excluded(idx) => idx,
            RangeBound::Unbounded => 0x1000,
        };
        let len: usize = end.saturating_sub(start);
        (self.address + start as u64, len)
    }
}

impl VolatileBytes<ReadWrite> {
    /// The same bytes for reading only.
    pub fn read_only(self) -> (res: VolatileBytes<ReadOnly>)
        ensures
            res.address == self.address,
    {
        VolatileBytes { access: ReadOnly {  }, address: self.address }
    }

    /// Copies the bytes of another page.
    pub fn copy_from<A>(self, src: VolatileBytes<A>, heap: &mut PageHeap)
        requires
            old(heap).wf(),
            old(heap)@.contains_key(self.address),
            old(heap)@.contains_key(src.address),
        ensures
            final(heap).wf(),
            final(heap)@ == old(heap)@.insert(
                self.address,
                (Content { bytes: old(heap)@[src.address].bytes, ..old(heap)@[self.address] }),
            ),
    {
        let bytes: Vec<u8> = heap.copy_content(src.address);
        heap.set_content(self.address, bytes);
    }
}

/// Making a page's content modifiable keeps the content of the page and of all other pages.
pub proof fn law_copy_on_write(
    page: KernelPage,
    heap: Map<u64, Content>,
    allocated: Option<u64>,
    new_page: KernelPage,
    new_heap: Map<u64, Content>,
    res: Result<(), Error>,
    other: u64,
)
    requires
        page.wf(heap),
        allocated matches Some(address) ==> !heap.contains_key(address),
        made_mutable(page, heap, allocated, new_page, new_heap, res),
        heap.contains_key(other),
    ensures
        new_heap[new_page.address].bytes == heap[page.address].bytes,
        new_heap.contains_key(other),
        new_heap[other].bytes == heap[other].bytes,
        res is Ok ==> !new_page.counted && new_heap[new_page.address].references == 1,
{
}

/// A shallow copy refers to the same memory: there's one more reference to it, and nothing else
/// changes.
pub proof fn law_shallow_copy(heap: Map<u64, Content>, address: u64, other: u64)
    requires
        heap.contains_key(address),
    ensures
        with_reference(heap, address).contains_key(address),
        with_reference(heap, address)[address].bytes == heap[address].bytes,
        with_reference(heap, address)[address].references == heap[address].references + 1,
        other != address ==> with_reference(heap, address).contains_key(other)
            == heap.contains_key(other) && with_reference(heap, address)[other] == heap[other],
{
}

/// Memory is gone once the last page that refers to it has been given up, and not before.
pub proof fn law_release(heap: Map<u64, Content>, address: u64, other: u64)
    requires
        heap.contains_key(address),
        heap[address].references >= 1,
    ensures
        heap[address].references == 1 ==> !without_reference(heap, address).contains_key(address),
        heap[address].references > 1 ==> {
            &&& without_reference(heap, address).contains_key(address)
            &&& without_reference(heap, address)[address].bytes == heap[address].bytes
            &&& without_reference(heap, address)[address].references == heap[address].references - 1
        },
        other != address ==> without_reference(heap, address).contains_key(other)
            == heap.contains_key(other) && without_reference(heap, address)[other] == heap[other],
{
}

/// Memory is copied only if another page refers to it, which needs an allocation. Without one, nothing
/// changes.
pub proof fn law_copy_needs_memory(
    page: KernelPage,
    heap: Map<u64, Content>,
    allocated: Option<u64>,
    new_page: KernelPage,
    new_heap: Map<u64, Content>,
    res: Result<(), Error>,
)
    requires
        page.wf(heap),
        heap[page.address].references >= 1,
        allocated matches Some(address) ==> !heap.contains_key(address),
        made_mutable(page, heap, allocated, new_page, new_heap, res),
    ensures
        heap[page.address].references == 1 ==> res is Ok && new_page.address == page.address
            && new_heap == heap,
        heap[page.address].references > 1 && allocated is None ==> res == Err::<(), Error>(
            Error::NoMem,
        ) && new_page == page && new_heap == heap,
        heap[page.address].references > 1 && allocated is Some ==> {
            &&& res is Ok
            &&& new_page.address == allocated->0
            &&& new_heap[page.address].references == heap[page.address].references - 1
            &&& new_heap.dom() == heap.dom().insert(allocated->0)
        },
{
    if heap[page.address].references > 1 && allocated is Some {
        assert(new_heap.dom() =~= heap.dom().insert(allocated->0));
    }
}

/// Which indices are in a range of a page.
pub proof fn law_ranges(start: RangeBound, end: RangeBound, i: int)
    requires
        0 <= i < 4096,
    ensures
        range_start(start) <= i <==> match start {
            RangeBound::Included(idx) => idx <= i,
            RangeBound::Excluded(idx) => idx < i,
            RangeBound::Unbounded => true,
        },
        i < range_end(end) <==> match end {
            RangeBound::Included(idx) => i <= idx,
            RangeBound::Excluded(idx) => i < idx,
            RangeBound::Unbounded => true,
        },
{
}

/// The physical memory of the heap is mapped half a terabyte behind the start of the upper half.
pub proof fn law_start_of_heap()
    ensures
        HEAP_BASE == 0xffff_8000_0000_0000 + 0x80_0000_0000,
{
}

} // verus!
