//! Mappings: ranges of pages that share their permissions and where their content comes from.
use vstd::prelude::*;

use crate::addr::{
    self, Page, VirtAddr, LAST_PAGE, LOWER_HALF_LAST_PAGE, PAGE_SIZE, UPPER_HALF_START,
};
use crate::error::Error;
use crate::fs::node::FileSnapshot;
use crate::memory::pagetable::{
    self, Entry, Frame, PageTable, PageTableFlags, PresentPageTableEntry,
};
use crate::user::process::syscall::args::ProtFlags;

verus! {

/// What may be done with memory.
#[derive(Clone, Copy, PartialEq, Eq, Structural, Debug)]
pub struct MemoryPermissions {
    /// Instructions may be fetched.
    pub execute: bool,
    /// The memory may be written to.
    pub write: bool,
    /// The memory may be read from.
    pub read: bool,
}

impl MemoryPermissions {
    /// The permissions of either set.
    pub open spec fn plus(self, other: Self) -> Self {
        MemoryPermissions {
            execute: self.execute || other.execute,
            write: self.write || other.write,
            read: self.read || other.read,
        }
    }

    /// The permissions that are only in the first set.
    pub open spec fn minus(self, other: Self) -> Self {
        MemoryPermissions {
            execute: self.execute && !other.execute,
            write: self.write && !other.write,
            read: self.read && !other.read,
        }
    }

    /// The permissions of either set.
    pub fn union(self, other: Self) -> (res: Self)
        ensures
            res == self.plus(other),
    {
        MemoryPermissions {
            execute: self.execute || other.execute,
            write: self.write || other.write,
            read: self.read || other.read,
        }
    }

    /// The permissions that are only in the first set.
    pub fn difference(self, other: Self) -> (res: Self)
        ensures
            res == self.minus(other),
    {
        MemoryPermissions {
            execute: self.execute && !other.execute,
            write: self.write && !other.write,
            read: self.read && !other.read,
        }
    }

    /// The permissions as bits.
    pub fn bits(self) -> (res: u8)
        ensures
            res == (if self.execute {
                1int
            } else {
                0
            }) + (if self.write {
                2int
            } else {
                0
            }) + (if self.read {
                4int
            } else {
                0
            }),
    {
        let mut bits: u8 = 0;
        if self.execute {
            bits = bits + 1;
        }
        if self.write {
            bits = bits + 2;
        }
        if self.read {
            bits = bits + 4;
        }
        bits
    }
}

impl From<ProtFlags> for MemoryPermissions {
    fn from(value: ProtFlags) -> (res: Self) {
        MemoryPermissions { execute: value.execute, write: value.write, read: value.read }
    }
}

impl vstd::std_specs::convert::FromSpecImpl<ProtFlags> for MemoryPermissions {
    open spec fn obeys_from_spec() -> bool {
        true
    }

    open spec fn from_spec(value: ProtFlags) -> Self {
        MemoryPermissions { execute: value.execute, write: value.write, read: value.read }
    }
}

/// The attributes that go with permissions. There is none for reading.
pub open spec fn flags_of(value: MemoryPermissions) -> PageTableFlags {
    PageTableFlags { executable: value.execute, writable: value.write, ..PageTableFlags::none() }
}

impl From<MemoryPermissions> for PageTableFlags {
    fn from(value: MemoryPermissions) -> (res: Self) {
        let mut flags: PageTableFlags = PageTableFlags::empty();
        flags.executable = value.execute;
        flags.writable = value.write;
        flags
    }
}

impl vstd::std_specs::convert::FromSpecImpl<MemoryPermissions> for PageTableFlags {
    open spec fn obeys_from_spec() -> bool {
        true
    }

    open spec fn from_spec(value: MemoryPermissions) -> Self {
        flags_of(value)
    }
}

/// Where the content of a page comes from.
#[verifier::ext_equal]
pub enum Source {
    /// The page starts out as zero.
    Zero,
    /// The page belongs to a stack. It starts out as zero.
    Stack,
    /// The page starts out as a part of a file.
    File {
        /// The content of the file.
        bytes: Seq<u8>,
        /// The address of the content if it is part of the kernel's image.
        base: Option<u64>,
        /// The offset of the page in the file.
        offset: int,
    },
}

impl Source {
    /// Whether the content exists. A page may only reach past the end of a file if the file isn't
    /// part of the kernel's image.
    pub open spec fn fillable(self) -> bool {
        match self {
            Source::Zero | Source::Stack => true,
            Source::File { bytes, base, offset } => {
                &&& 0 <= offset <= bytes.len()
                &&& base is Some ==> offset + PAGE_SIZE <= bytes.len()
            },
        }
    }

    /// What the page starts out as.
    pub open spec fn initial(self) -> Seq<u8> {
        match self {
            Source::Zero | Source::Stack => pagetable::padded(Seq::empty(), 0),
            Source::File { bytes, base, offset } => pagetable::padded(bytes, offset),
        }
    }

    /// Whether the page can share a frame of the kernel's image.
    pub open spec fn shared(self) -> bool {
        match self {
            Source::Zero | Source::Stack => false,
            Source::File { bytes, base, offset } => base is Some && (base->0 + offset)
                % PAGE_SIZE as int == 0,
        }
    }

    /// The page table entry of a page that is accessed for the first time.
    pub open spec fn filled(self, permissions: MemoryPermissions) -> Entry {
        Entry {
            bytes: self.initial(),
            flags: PageTableFlags {
                user: true,
                writable: permissions.write && !self.shared(),
                executable: permissions.execute,
                cow: self.shared(),
                global: false,
                local: false,
            },
            dirty: false,
        }
    }
}

/// Where the content of a mapping comes from.
pub enum Backing {
    /// The mapping starts out as a part of a file.
    File(FileBacking),
    /// The mapping starts out as zero.
    Zero,
    /// The mapping is a stack. It starts out as zero.
    Stack,
}

/// A part of a file.
pub struct FileBacking {
    /// The offset of the part in the file.
    pub offset: u64,
    /// The content of the file.
    pub bytes: FileSnapshot,
}

impl FileBacking {
    /// Where the content of the page at an offset comes from.
    pub open spec fn source(self, at: int) -> Source {
        Source::File { bytes: self.bytes@, base: self.bytes.base(), offset: self.offset + at }
    }

    /// Splits the backing into two parts. `self` is what comes before `offset` and the result is
    /// what comes after.
    pub fn split(&mut self, offset: u64) -> (res: Self)
        requires
            old(self).offset + offset <= u64::MAX,
        ensures
            *final(self) == *old(self),
            forall|at: int| #[trigger] res.source(at) == old(self).source(offset + at),
            res.offset == old(self).offset + offset,
    {
        FileBacking { offset: self.offset + offset, bytes: self.bytes.clone() }
    }
}

impl Backing {
    /// Where the content of the page at an offset comes from.
    pub open spec fn source(self, at: int) -> Source {
        match self {
            Backing::File(file) => file.source(at),
            Backing::Zero => Source::Zero,
            Backing::Stack => Source::Stack,
        }
    }

    /// The offsets of the first `len` bytes are representable.
    pub open spec fn reaches(self, len: int) -> bool {
        self matches Backing::File(file) ==> file.offset + len <= u64::MAX
    }

    /// Splits the backing into two parts. `self` is what comes before `offset` and the result is
    /// what comes after.
    pub fn split(&mut self, offset: u64) -> (res: Self)
        requires
            old(self).reaches(offset as int),
        ensures
            *final(self) == *old(self),
            forall|at: int| #[trigger] res.source(at) == old(self).source(offset + at),
            forall|len: int| #[trigger] res.reaches(len) == old(self).reaches(offset + len),
            res is File == (*old(self) is File),
            res is Zero == (*old(self) is Zero),
            res is Stack == (*old(self) is Stack),
    {
        match self {
            Backing::File(file) => Backing::File(file.split(offset)),
            Backing::Zero => Backing::Zero,
            Backing::Stack => Backing::Stack,
        }
    }

    /// The initial content of the memory at an offset.
    pub open spec fn initial_memory(self, offset: int, len: int) -> Seq<u8> {
        match self {
            Backing::File(file) => file.bytes@.subrange(
                file.offset + offset,
                file.offset + offset + len,
            ),
            Backing::Zero => Seq::new(len as nat, |i: int| 0),
            Backing::Stack => Seq::new(len as nat, |i: int| 0),
        }
    }

    /// Whether the initial content of the memory at an offset exists.
    pub open spec fn has_initial_memory(self, offset: int, len: int) -> bool {
        self matches Backing::File(file) ==> file.offset + offset + len <= file.bytes@.len()
    }

    /// Copies the initial content of the memory at an offset into a buffer.
    ///
    /// The pages at the unaligned ends of a mapping can't be provided by the backing. They are
    /// allocated and the backing's memory is copied into them.
    pub fn copy_initial_memory_to_slice(&self, offset: u64, buf: &mut [u8])
        requires
            self.has_initial_memory(offset as int, old(buf)@.len() as int),
        ensures
            final(buf)@ == self.initial_memory(offset as int, old(buf)@.len() as int),
    {
        let len: usize = buf.len();
        let mut i: usize = 0;
        match self {
            Backing::File(file) => {
                assert(file.bytes@.len() <= usize::MAX) by {
                    file.bytes.lemma_len();
                }
                let start: usize = (file.offset + offset) as usize;
                while i < len
                    invariant
                        i <= len,
                        len == buf@.len(),
                        start + len <= file.bytes@.len() <= usize::MAX,
                        forall|j: int| 0 <= j < i ==> buf@[j] == file.bytes@[start + j],
                    decreases len - i,
                {
                    buf[i] = file.bytes.get(start + i);
                    i = i + 1;
                }
                assert(buf@ =~= file.bytes@.subrange(start as int, start + len));
            },
            Backing::Zero | Backing::Stack => {
                while i < len
                    invariant
                        i <= len,
                        len == buf@.len(),
                        forall|j: int| 0 <= j < i ==> buf@[j] == 0,
                    decreases len - i,
                {
                    buf[i] = 0;
                    i = i + 1;
                }
                assert(buf@ =~= Seq::new(len as nat, |i: int| 0));
            },
        }
    }
}

impl Clone for Backing {
    fn clone(&self) -> (res: Self)
        ensures
            res == *self,
    {
        match self {
            Backing::File(file) => Backing::File(
                FileBacking { offset: file.offset, bytes: file.bytes.clone() },
            ),
            Backing::Zero => Backing::Zero,
            Backing::Stack => Backing::Stack,
        }
    }
}

/// What the mappings say about a page.
#[verifier::ext_equal]
pub struct PageInfo {
    /// Where the mapping that contains the page starts.
    pub start: int,
    /// Where the mapping that contains the page ends.
    pub end: int,
    /// What may be done with the page.
    pub permissions: MemoryPermissions,
    /// Where the content of the page comes from.
    pub source: Source,
}

/// A range of pages that share their permissions and where their content comes from.
pub struct Mapping {
    /// The first page.
    pub start: Page,
    /// The number of pages.
    pub num_pages: u64,
    /// What may be done with the pages.
    pub permissions: MemoryPermissions,
    /// Where the content comes from.
    pub backing: Backing,
}

/// Whether a range of memory is in one half of the address space and ends before the half's last
/// page.
pub open spec fn is_range(start: int, len: int) -> bool {
    &&& 0 <= start && 0 <= len
    &&& start + len <= LOWER_HALF_LAST_PAGE || (UPPER_HALF_START <= start && start + len
        <= LAST_PAGE)
}

impl Clone for Mapping {
    fn clone(&self) -> (res: Self)
        ensures
            res == *self,
    {
        Mapping {
            start: self.start,
            num_pages: self.num_pages,
            permissions: self.permissions,
            backing: self.backing.clone(),
        }
    }
}

impl Mapping {
    /// The address after the last page.
    pub open spec fn end_address(self) -> int {
        self.start@ + self.num_pages * PAGE_SIZE
    }

    /// The mapping isn't empty, has an end and its backing's offsets are representable.
    pub open spec fn wf(self) -> bool {
        &&& addr::is_page(self.start@)
        &&& self.num_pages > 0
        &&& is_range(self.start@ as int, self.num_pages * PAGE_SIZE)
        &&& self.backing.reaches(self.num_pages * PAGE_SIZE)
    }

    /// Whether the mapping contains an address.
    pub open spec fn covers(self, addr: int) -> bool {
        self.start@ <= addr < self.end_address()
    }

    /// What the mapping says about a page.
    pub open spec fn info(self, page: int) -> PageInfo {
        PageInfo {
            start: self.start@ as int,
            end: self.end_address(),
            permissions: self.permissions,
            source: self.backing.source(page - self.start@),
        }
    }

    /// The page after the last one.
    pub fn end(&self) -> (res: Page)
        requires
            self.wf(),
        ensures
            res@ == self.end_address(),
            res.wf(),
    {
        self.start.checked_add(self.num_pages).unwrap()
    }

    /// Returns whether the mapping contains an address.
    pub fn contains(&self, addr: VirtAddr) -> (res: bool)
        requires
            self.wf(),
        ensures
            res == self.covers(addr@ as int),
    {
        self.contains_page(Page::containing_address(addr))
    }

    /// Returns whether the mapping contains a page.
    pub fn contains_page(&self, page: Page) -> (res: bool)
        requires
            self.wf(),
        ensures
            res == self.covers(page@ as int),
    {
        self.start.start() <= page.start() && page.start() < self.end().start()
    }

    /// Returns whether the mapping contains any memory in a range. The end of the range is sign
    /// extended if necessary.
    pub fn contains_range(&self, addr: VirtAddr, size: u64) -> (res: bool)
        requires
            self.wf(),
            size > 0 ==> addr::canonical_form(addr@ + size - 1) is Some,
        ensures
            res == (size > 0 && self.start@ <= addr::canonical_form(addr@ + size - 1)->0 && addr@
                < self.end_address()),
    {
        let sizem1: u64 = match size.checked_sub(1) {
            Some(sizem1) => sizem1,
            None => {
                return false;
            },
        };
        let end: u64 = addr.checked_add(sizem1).unwrap().as_u64();
        let addr: u64 = addr.as_u64();
        let first: u64 = self.start.start();
        let last: u64 = self.end().start() - 1;
        (first <= addr && addr <= last) || (first <= end && end <= last) || (addr <= first && first
            <= end) || (addr <= last && last <= end)
    }

    /// Returns whether the mapping contains any memory in a range. The end of the range is sign
    /// extended if necessary.
    pub fn contains_page_range(&self, addr: Page, num_pages: u64) -> (res: bool)
        requires
            self.wf(),
            num_pages > 0 ==> addr::canonical_form(addr@ + (num_pages - 1) * PAGE_SIZE) is Some,
        ensures
            res == (num_pages > 0 && self.start@ <= addr::canonical_form(
                addr@ + (num_pages - 1) * PAGE_SIZE,
            )->0 && addr@ < self.end_address()),
    {
        let sizem1: u64 = match num_pages.checked_sub(1) {
            Some(sizem1) => sizem1,
            None => {
                return false;
            },
        };
        let end: Page = addr.checked_add(sizem1).unwrap();
        let first: u64 = self.start.start();
        let last: u64 = self.end().start() - PAGE_SIZE;
        self.contains_page(addr) || self.contains_page(end) || (addr.start() <= first && first
            <= end.start()) || (addr.start() <= last && last <= end.start())
    }

    /// Splits the mapping into two parts. `self` will contain the pages before `offset_in_pages`
    /// and the returned mapping will contain the rest.
    pub fn split(&mut self, offset_in_pages: u64) -> (res: Self)
        requires
            old(self).wf(),
            offset_in_pages < old(self).num_pages,
        ensures
            offset_in_pages > 0 ==> final(self).wf(),
            final(self).start@ == old(self).start@,
            final(self).num_pages == offset_in_pages,
            final(self).permissions == old(self).permissions,
            final(self).backing == old(self).backing,
            res.wf(),
            res.start@ == old(self).start@ + offset_in_pages * PAGE_SIZE,
            res.num_pages == old(self).num_pages - offset_in_pages,
            res.permissions == old(self).permissions,
            forall|at: int| #[trigger]
                res.backing.source(at) == old(self).backing.source(
                    offset_in_pages * PAGE_SIZE + at,
                ),
            res.backing is File == (old(self).backing is File),
            res.backing is Zero == (old(self).backing is Zero),
            res.backing is Stack == (old(self).backing is Stack),
    {
        let start: Page = self.start.checked_add(offset_in_pages).unwrap();
        let new_backing: Backing = self.backing.split(offset_in_pages * PAGE_SIZE);
        let new_len: u64 = self.num_pages - offset_in_pages;
        self.num_pages = offset_in_pages;
        Mapping {
            start,
            num_pages: new_len,
            permissions: self.permissions,
            backing: new_backing,
        }
    }

    /// Whether the page can be brought in if it isn't present.
    pub open spec fn can_fill(self, page: u64) -> bool {
        &&& self.backing.source(page - self.start@).fillable()
        &&& self.backing is File ==> self.start@ <= page
    }

    /// Returns whether the initial content of a page of the mapping exists.
    pub(crate) fn is_fillable(&self, page: Page) -> (res: bool)
        requires
            self.wf(),
            self.covers(page@ as int),
        ensures
            res == self.backing.source(page@ - self.start@).fillable(),
    {
        match &self.backing {
            Backing::File(file) => {
                let offset: u64 = file.offset + (page.start() - self.start.start());
                let len: u64 = file.bytes.len() as u64;
                if offset > len {
                    return false;
                }
                match file.bytes.static_base() {
                    Some(_) => len - offset >= PAGE_SIZE,
                    None => true,
                }
            },
            Backing::Zero => true,
            Backing::Stack => true,
        }
    }

    /// The page table entry that the page has, or gets when it's brought in.
    pub open spec fn entry(self, table: Map<u64, Entry>, page: u64) -> Entry {
        entry_or_filled(table, self.info(page as int), page)
    }

    /// Allocates a frame with the initial content of a page.
    fn frame(&self, page: Page) -> (res: Frame)
        requires
            self.can_fill(page@),
        ensures
            res.wf(),
            res is Shared == self.backing.source(page@ - self.start@).shared(),
            res.bytes() == self.backing.source(page@ - self.start@).initial(),
    {
        match &self.backing {
            Backing::File(file) => {
                proof {
                    file.bytes.lemma_len();
                }
                let offset: usize = (file.offset + (page.start() - self.start.start())) as usize;
                match file.bytes.static_base() {
                    Some(base) => {
                        if (base + offset as u64) % PAGE_SIZE == 0 {
                            let frame: Frame = file.bytes.shared_frame(offset);
                            assert(frame.bytes() =~= pagetable::padded(file.bytes@, offset as int));
                            return frame;
                        }
                    },
                    None => {},
                }
                file.bytes.copied_frame(offset)
            },
            // FIXME: We could map a specific zero frame.
            Backing::Zero | Backing::Stack => Frame::zeroed(),
        }
    }

    /// Brings a page in if it isn't present.
    pub fn make_readable(&self, page: Page, table: &mut PageTable) -> (res: Result<(), Error>)
        requires
            old(table).wf(),
            self.permissions.read && !old(table)@.contains_key(page@) ==> self.can_fill(page@),
        ensures
            final(table).wf(),
            res == (if self.permissions.read {
                Ok::<(), Error>(())
            } else {
                Err(Error::Fault)
            }),
            final(table)@ == if self.permissions.read {
                old(table)@.insert(page@, self.entry(old(table)@, page@))
            } else {
                old(table)@
            },
    {
        if !self.permissions.read {
            return Err(Error::Fault);
        }
        if table.is_present(page) {
            // If the page exists, it's readable.
            assert(table@ =~= old(table)@.insert(page@, self.entry(old(table)@, page@)));
        } else {
            let frame: Frame = self.frame(page);
            let mut flags: PageTableFlags = PageTableFlags::empty();
            flags.user = true;
            if self.permissions.execute {
                flags.executable = true;
            }
            match &frame {
                Frame::Shared(_, _) => {
                    flags.cow = true;
                },
                Frame::Owned(_) => {
                    if self.permissions.write {
                        flags.writable = true;
                    }
                },
            }
            table.map_page(page, PresentPageTableEntry::new(frame, flags));
        }
        Ok(())
    }

    /// Brings a page in and gives it a frame of its own.
    pub fn remove_cow(&self, page: Page, table: &mut PageTable) -> (res: Result<(), Error>)
        requires
            old(table).wf(),
            self.permissions.read && !old(table)@.contains_key(page@) ==> self.can_fill(page@),
        ensures
            final(table).wf(),
            res == (if self.permissions.read {
                Ok::<(), Error>(())
            } else {
                Err(Error::Fault)
            }),
            final(table)@ == if self.permissions.read {
                old(table)@.insert(page@, self.entry(old(table)@, page@).unshared())
            } else {
                old(table)@
            },
    {
        self.make_readable(page, table)?;
        match table.flags(page) {
            Some(flags) => {
                if flags.cow {
                    table.unshare(page);
                }
            },
            None => {},
        }
        assert(table@ =~= old(table)@.insert(page@, self.entry(old(table)@, page@).unshared()));
        Ok(())
    }

    /// Makes a page writable.
    pub fn make_writable(&self, page: Page, table: &mut PageTable) -> (res: Result<(), Error>)
        requires
            old(table).wf(),
            self.permissions.read && self.permissions.write && !old(table)@.contains_key(page@)
                ==> self.can_fill(page@),
        ensures
            final(table).wf(),
            res == (if self.permissions.read && self.permissions.write {
                Ok::<(), Error>(())
            } else {
                Err(Error::Fault)
            }),
            final(table)@ == if self.permissions.read && self.permissions.write {
                old(table)@.insert(page@, made_writable(self.entry(old(table)@, page@)))
            } else {
                old(table)@
            },
    {
        if !self.permissions.write {
            return Err(Error::Fault);
        }
        self.remove_cow(page, table)?;
        match table.flags(page) {
            Some(flags) => {
                if !flags.writable {
                    let mut added: PageTableFlags = PageTableFlags::empty();
                    added.writable = true;
                    added.user = true;
                    table.add_flags(page, added);
                }
            },
            None => {},
        }
        assert(table@ =~= old(table)@.insert(
            page@,
            made_writable(self.entry(old(table)@, page@)),
        ));
        Ok(())
    }

    /// Makes a page executable.
    pub fn make_executable(&self, page: Page, table: &mut PageTable) -> (res: Result<(), Error>)
        requires
            old(table).wf(),
            self.permissions.read && self.permissions.execute && !old(table)@.contains_key(page@)
                ==> self.can_fill(page@),
        ensures
            final(table).wf(),
            res == (if self.permissions.read && self.permissions.execute {
                Ok::<(), Error>(())
            } else {
                Err(Error::Fault)
            }),
            final(table)@ == if self.permissions.read && self.permissions.execute {
                old(table)@.insert(page@, made_executable(self.entry(old(table)@, page@)))
            } else {
                old(table)@
            },
    {
        if !self.permissions.execute {
            return Err(Error::Fault);
        }
        // Map the page in.
        self.make_readable(page, table)?;
        // Mark it as executable if it isn't already.
        match table.flags(page) {
            Some(flags) => {
                if !flags.executable {
                    let mut added: PageTableFlags = PageTableFlags::empty();
                    added.executable = true;
                    table.add_flags(page, added);
                }
            },
            None => {},
        }
        assert(table@ =~= old(table)@.insert(
            page@,
            made_executable(self.entry(old(table)@, page@)),
        ));
        Ok(())
    }
}

/// The page table entry that a page has, or gets when it's brought in.
pub open spec fn entry_or_filled(table: Map<u64, Entry>, info: PageInfo, page: u64) -> Entry {
    if table.contains_key(page) {
        table[page]
    } else {
        info.source.filled(info.permissions)
    }
}

/// An entry after it has been made writable.
pub open spec fn made_writable(entry: Entry) -> Entry {
    let entry = entry.unshared();
    if entry.flags.writable {
        entry
    } else {
        entry.plus(PageTableFlags { writable: true, user: true, ..PageTableFlags::none() })
    }
}

/// An entry after it has been made executable.
pub open spec fn made_executable(entry: Entry) -> Entry {
    entry.plus(PageTableFlags { executable: true, ..PageTableFlags::none() })
}

} // verus!
