//! The page table of an address space and the frames that it refers to.
use std::collections::BTreeMap;
use std::sync::Arc;
use vstd::prelude::*;

use crate::addr::{self, Page, PAGE_SIZE};

verus! {

/// The size of a page as a length.
pub const PAGE_LEN: usize = 0x1000;

/// The attributes of a page table entry.
#[derive(Clone, Copy, PartialEq, Eq, Structural, Debug)]
pub struct PageTableFlags {
    /// User space may access the page.
    pub user: bool,
    /// The page may be written to.
    pub writable: bool,
    /// Instructions may be fetched from the page.
    pub executable: bool,
    /// The frame is shared and has to be copied before it is written to.
    pub cow: bool,
    /// The entry is part of every address space.
    pub global: bool,
    /// The entry is used by one processor only.
    pub local: bool,
}

impl PageTableFlags {
    /// No attributes.
    pub open spec fn none() -> Self {
        PageTableFlags {
            user: false,
            writable: false,
            executable: false,
            cow: false,
            global: false,
            local: false,
        }
    }

    /// The attributes of either set.
    pub open spec fn plus(self, other: Self) -> Self {
        PageTableFlags {
            user: self.user || other.user,
            writable: self.writable || other.writable,
            executable: self.executable || other.executable,
            cow: self.cow || other.cow,
            global: self.global || other.global,
            local: self.local || other.local,
        }
    }

    /// The attributes that are only in the first set.
    pub open spec fn minus(self, other: Self) -> Self {
        PageTableFlags {
            user: self.user && !other.user,
            writable: self.writable && !other.writable,
            executable: self.executable && !other.executable,
            cow: self.cow && !other.cow,
            global: self.global && !other.global,
            local: self.local && !other.local,
        }
    }

    /// No attributes.
    pub fn empty() -> (res: Self)
        ensures
            res == Self::none(),
    {
        PageTableFlags {
            user: false,
            writable: false,
            executable: false,
            cow: false,
            global: false,
            local: false,
        }
    }

    /// Whether there are no attributes.
    pub fn is_empty(&self) -> (res: bool)
        ensures
            res == (*self == Self::none()),
    {
        !self.user && !self.writable && !self.executable && !self.cow && !self.global && !self.local
    }

    /// The attributes of either set.
    pub fn union(self, other: Self) -> (res: Self)
        ensures
            res == self.plus(other),
    {
        PageTableFlags {
            user: self.user || other.user,
            writable: self.writable || other.writable,
            executable: self.executable || other.executable,
            cow: self.cow || other.cow,
            global: self.global || other.global,
            local: self.local || other.local,
        }
    }

    /// The attributes that are only in the first set.
    pub fn difference(self, other: Self) -> (res: Self)
        ensures
            res == self.minus(other),
    {
        PageTableFlags {
            user: self.user && !other.user,
            writable: self.writable && !other.writable,
            executable: self.executable && !other.executable,
            cow: self.cow && !other.cow,
            global: self.global && !other.global,
            local: self.local && !other.local,
        }
    }
}

/// The memory that backs a page.
pub enum Frame {
    /// Memory that belongs to the page.
    Owned(Vec<u8>),
    /// A part of memory that others use as well.
    Shared(Arc<Vec<u8>>, usize),
}

impl Frame {
    /// A frame of zeros.
    pub fn zeroed() -> (res: Frame)
        ensures
            res is Owned,
            res.wf(),
            res.bytes() == padded(Seq::empty(), 0),
    {
        let mut bytes: Vec<u8> = Vec::new();
        let mut i: usize = 0;
        while i < PAGE_LEN
            invariant
                i <= PAGE_LEN,
                bytes@.len() == i,
                forall|j: int| 0 <= j < i ==> bytes@[j] == 0,
            decreases PAGE_LEN - i,
        {
            bytes.push(0);
            i = i + 1;
        }
        assert(bytes@ =~= padded(Seq::empty(), 0));
        Frame::Owned(bytes)
    }

    /// The frame has the size of a page.
    pub open spec fn wf(self) -> bool {
        match self {
            Frame::Owned(bytes) => bytes@.len() == PAGE_SIZE,
            Frame::Shared(bytes, offset) => offset + PAGE_SIZE <= bytes@.len(),
        }
    }

    /// The content of the frame.
    pub open spec fn bytes(self) -> Seq<u8> {
        match self {
            Frame::Owned(bytes) => bytes@,
            Frame::Shared(bytes, offset) => bytes@.subrange(offset as int, offset + PAGE_SIZE),
        }
    }
}

/// A page table entry for a page that is present.
pub struct PresentPageTableEntry {
    /// The memory of the page.
    pub frame: Frame,
    /// The attributes.
    pub flags: PageTableFlags,
    /// Whether the page has been written to through the page table.
    pub dirty: bool,
}

/// What a page table entry says about a page.
#[verifier::ext_equal]
pub struct Entry {
    /// The content of the page.
    pub bytes: Seq<u8>,
    /// The attributes.
    pub flags: PageTableFlags,
    /// Whether the page has been written to through the page table.
    pub dirty: bool,
}

impl Entry {
    /// The page has the right size, and a shared frame isn't writable.
    pub open spec fn wf(self) -> bool {
        &&& self.bytes.len() == PAGE_SIZE
        &&& self.flags.cow ==> !self.flags.writable
    }

    /// The entry with some attributes added.
    pub open spec fn plus(self, flags: PageTableFlags) -> Entry {
        Entry { flags: self.flags.plus(flags), ..self }
    }

    /// The entry with some attributes removed.
    pub open spec fn minus(self, flags: PageTableFlags) -> Entry {
        Entry { flags: self.flags.minus(flags), ..self }
    }

    /// The entry with a frame of its own.
    pub open spec fn unshared(self) -> Entry {
        Entry { flags: PageTableFlags { cow: false, ..self.flags }, ..self }
    }

    /// The entry after a part of the page has been written to.
    pub open spec fn written(self, offset: int, bytes: Seq<u8>) -> Entry {
        Entry { bytes: overwrite(self.bytes, offset, bytes), dirty: true, ..self }
    }
}

/// A sequence with a part replaced.
pub open spec fn overwrite(bytes: Seq<u8>, offset: int, part: Seq<u8>) -> Seq<u8> {
    Seq::new(
        bytes.len(),
        |i: int|
            if offset <= i < offset + part.len() {
                part[i - offset]
            } else {
                bytes[i]
            },
    )
}

/// A page of content from an offset on, filled up with zeros.
pub open spec fn padded(content: Seq<u8>, offset: int) -> Seq<u8> {
    Seq::new(
        PAGE_SIZE as nat,
        |i: int|
            if offset + i < content.len() {
                content[offset + i]
            } else {
                0
            },
    )
}

impl View for PresentPageTableEntry {
    type V = Entry;

    open spec fn view(&self) -> Entry {
        Entry { bytes: self.frame.bytes(), flags: self.flags, dirty: self.dirty }
    }
}

impl PresentPageTableEntry {
    /// The frame has the right size. Exactly the shared frames have to be copied before they are
    /// written to, and they aren't writable.
    pub open spec fn wf(self) -> bool {
        &&& self.frame.wf()
        &&& self.flags.cow == (self.frame is Shared)
        &&& self.flags.cow ==> !self.flags.writable
    }

    /// Creates an entry for a page that hasn't been written to.
    pub fn new(frame: Frame, flags: PageTableFlags) -> (res: Self)
        ensures
            res@ == (Entry { bytes: frame.bytes(), flags, dirty: false }),
            res.frame == frame,
    {
        PresentPageTableEntry { frame, flags, dirty: false }
    }

    /// Copies a shared frame.
    fn unshare(self) -> (res: Self)
        requires
            self.wf(),
        ensures
            res.wf(),
            res@ == self@.unshared(),
    {
        let frame: Frame = match self.frame {
            Frame::Owned(bytes) => Frame::Owned(bytes),
            Frame::Shared(bytes, offset) => {
                let mut copy: Vec<u8> = Vec::new();
                let mut i: usize = 0;
                while i < PAGE_LEN
                    invariant
                        i <= PAGE_LEN,
                        offset + PAGE_LEN <= bytes@.len(),
                        copy@ == bytes@.subrange(offset as int, offset + i),
                    decreases PAGE_LEN - i,
                {
                    assert(offset + i < bytes.len());
                    copy.push(bytes[offset + i]);
                    i = i + 1;
                    assert(copy@ =~= bytes@.subrange(offset as int, offset + i));
                }
                Frame::Owned(copy)
            },
        };
        let mut flags: PageTableFlags = self.flags;
        flags.cow = false;
        PresentPageTableEntry { frame, flags, dirty: self.dirty }
    }
}

/// The page table of an address space.
pub struct PageTable {
    entries: BTreeMap<u64, PresentPageTableEntry>,
}

impl View for PageTable {
    type V = Map<u64, Entry>;

    closed spec fn view(&self) -> Map<u64, Entry> {
        self.entries@.map_values(|entry: PresentPageTableEntry| entry@)
    }
}

impl PageTable {
    /// All entries are for pages, and their frames match their attributes.
    pub closed spec fn wf(self) -> bool {
        forall|page: u64| #[trigger]
            self.entries@.contains_key(page) ==> addr::is_page(page) && self.entries@[page].wf()
    }

    /// All entries are for pages, have the size of a page and aren't writable if they are shared.
    pub proof fn lemma_entries_wf(self)
        requires
            self.wf(),
        ensures
            forall|page: u64| #[trigger]
                self@.contains_key(page) ==> addr::is_page(page) && self@[page].wf(),
    {
        assert forall|page: u64| #[trigger] self@.contains_key(page) implies addr::is_page(page)
            && self@[page].wf() by {
            assert(self.entries@.contains_key(page));
        }
    }

    /// Creates an empty page table.
    pub fn new() -> (res: Self)
        ensures
            res.wf(),
            res@ == Map::<u64, Entry>::empty(),
    {
        let res = PageTable { entries: BTreeMap::new() };
        assert(res@ =~= Map::empty());
        res
    }

    /// Returns whether a page is present.
    pub fn is_present(&self, page: Page) -> (res: bool)
        ensures
            res == self@.contains_key(page@),
    {
        self.entries.contains_key(&page.start())
    }

    /// Returns the attributes of a page.
    pub fn flags(&self, page: Page) -> (res: Option<PageTableFlags>)
        ensures
            res is Some == self@.contains_key(page@),
            res matches Some(flags) ==> flags == self@[page@].flags,
    {
        match self.entries.get(&page.start()) {
            Some(entry) => Some(entry.flags),
            None => None,
        }
    }

    /// Maps a page that isn't present yet.
    pub fn map_page(&mut self, page: Page, entry: PresentPageTableEntry)
        requires
            old(self).wf(),
            entry.wf(),
            !old(self)@.contains_key(page@),
        ensures
            final(self).wf(),
            final(self)@ == old(self)@.insert(page@, entry@),
    {
        self.set(page, entry);
    }

    /// Replaces the entry of a page.
    fn set(&mut self, page: Page, entry: PresentPageTableEntry)
        requires
            old(self).wf(),
            entry.wf(),
        ensures
            final(self).wf(),
            final(self)@ == old(self)@.insert(page@, entry@),
    {
        proof {
            use_type_invariant(page);
        }
        self.entries.insert(page.start(), entry);
        assert(self@ =~= old(self)@.insert(page@, entry@));
    }

    /// Unmaps a page.
    pub fn unmap_page(&mut self, page: Page)
        requires
            old(self).wf(),
        ensures
            final(self).wf(),
            final(self)@ == old(self)@.remove(page@),
    {
        self.entries.remove(&page.start());
        assert(self@ =~= old(self)@.remove(page@));
    }

    /// Adds attributes to a page that is present.
    ///
    /// A shared frame can't be made writable, and only shared frames are marked as such.
    pub fn add_flags(&mut self, page: Page, flags: PageTableFlags)
        requires
            old(self).wf(),
            old(self)@.contains_key(page@),
            !flags.cow,
            flags.writable ==> !old(self)@[page@].flags.cow,
        ensures
            final(self).wf(),
            final(self)@ == old(self)@.insert(page@, old(self)@[page@].plus(flags)),
    {
        match self.entries.remove(&page.start()) {
            Some(entry) => {
                let mut entry: PresentPageTableEntry = entry;
                entry.flags = entry.flags.union(flags);
                self.set(page, entry);
            },
            None => {},
        }
        assert(self@ =~= old(self)@.insert(page@, old(self)@[page@].plus(flags)));
    }

    /// Removes attributes from a page if it is present.
    ///
    /// Whether the frame is shared can't be changed this way.
    pub fn remove_flags(&mut self, page: Page, flags: PageTableFlags)
        requires
            old(self).wf(),
            !flags.cow,
        ensures
            final(self).wf(),
            final(self)@ == if old(self)@.contains_key(page@) {
                old(self)@.insert(page@, old(self)@[page@].minus(flags))
            } else {
                old(self)@
            },
    {
        match self.entries.remove(&page.start()) {
            Some(entry) => {
                let mut entry: PresentPageTableEntry = entry;
                entry.flags = entry.flags.difference(flags);
                self.set(page, entry);
                assert(self@ =~= old(self)@.insert(page@, old(self)@[page@].minus(flags)));
            },
            None => {
                assert(self@ =~= old(self)@);
            },
        }
    }

    /// Gives a page that is present a frame of its own.
    pub fn unshare(&mut self, page: Page)
        requires
            old(self).wf(),
            old(self)@.contains_key(page@),
        ensures
            final(self).wf(),
            final(self)@ == old(self)@.insert(page@, old(self)@[page@].unshared()),
    {
        match self.entries.remove(&page.start()) {
            Some(entry) => {
                self.set(page, entry.unshare());
            },
            None => {},
        }
        assert(self@ =~= old(self)@.insert(page@, old(self)@[page@].unshared()));
    }

    /// Copies a part of a page that is present into a part of a buffer.
    pub fn read(&self, page: Page, offset: usize, len: usize, buf: &mut [u8], at: usize)
        requires
            self.wf(),
            self@.contains_key(page@),
            offset + len <= PAGE_SIZE,
            at + len <= old(buf)@.len(),
        ensures
            final(buf)@ == overwrite(
                old(buf)@,
                at as int,
                self@[page@].bytes.subrange(offset as int, offset + len),
            ),
    {
        let mut i: usize = 0;
        assert(at + len <= buf.len());
        let entry = match self.entries.get(&page.start()) {
            Some(entry) => entry,
            None => {
                return;
            },
        };
        assert(entry.wf());
        assert(self@[page@].bytes == entry.frame.bytes());
        while i < len
            invariant
                i <= len,
                entry.wf(),
                offset + len <= PAGE_SIZE,
                at + len <= buf@.len() <= usize::MAX,
                buf@ == overwrite(
                    old(buf)@,
                    at as int,
                    entry.frame.bytes().subrange(offset as int, offset + i),
                ),
            decreases len - i,
        {
            let byte: u8 = match &entry.frame {
                Frame::Owned(bytes) => bytes[offset + i],
                Frame::Shared(bytes, start) => {
                    assert(start + PAGE_SIZE <= bytes.len());
                    bytes[*start + offset + i]
                },
            };
            assert(byte == entry.frame.bytes()[offset + i]);
            buf[at + i] = byte;
            i = i + 1;
            assert(buf@ =~= overwrite(
                old(buf)@,
                at as int,
                entry.frame.bytes().subrange(offset as int, offset + i),
            ));
        }
    }

    /// Copies a part of a buffer into a part of a page that is present and has a frame of its own.
    pub fn write(&mut self, page: Page, offset: usize, len: usize, buf: &[u8], at: usize)
        requires
            old(self).wf(),
            old(self)@.contains_key(page@),
            !old(self)@[page@].flags.cow,
            offset + len <= PAGE_SIZE,
            at + len <= buf@.len(),
        ensures
            final(self).wf(),
            final(self)@ == old(self)@.insert(
                page@,
                old(self)@[page@].written(offset as int, buf@.subrange(at as int, at + len)),
            ),
    {
        match self.entries.remove(&page.start()) {
            Some(entry) => {
                let flags: PageTableFlags = entry.flags;
                match entry.frame {
                    Frame::Owned(bytes) => {
                        let mut bytes: Vec<u8> = bytes;
                        let ghost before = bytes@;
                        let mut i: usize = 0;
                        assert(buf@.len() == buf.len());
                        while i < len
                            invariant
                                i <= len,
                                bytes@.len() == PAGE_SIZE,
                                offset + len <= PAGE_SIZE,
                                at + len <= buf@.len() <= usize::MAX,
                                bytes@ == overwrite(
                                    before,
                                    offset as int,
                                    buf@.subrange(at as int, at + i),
                                ),
                            decreases len - i,
                        {
                            bytes[offset + i] = buf[at + i];
                            i = i + 1;
                            assert(bytes@ =~= overwrite(
                                before,
                                offset as int,
                                buf@.subrange(at as int, at + i),
                            ));
                        }
                        self.set(
                            page,
                            PresentPageTableEntry { frame: Frame::Owned(bytes), flags, dirty: true },
                        );
                    },
                    Frame::Shared(_, _) => {},
                }
            },
            None => {},
        }
        assert(self@ =~= old(self)@.insert(
            page@,
            old(self)@[page@].written(offset as int, buf@.subrange(at as int, at + len)),
        ));
    }

    /// Returns the dirty pages in ascending order.
    pub fn find_dirty_userspace_pages(&self) -> (res: Vec<u64>)
        requires
            self.wf(),
        ensures
            sorted(res@),
            forall|page: u64| #[trigger]
                res@.contains(page) <==> self@.contains_key(page) && self@[page].dirty,
    {
        let mut res: Vec<u64> = Vec::new();
        let entries = self.entries.iter();
        let ghost pairs = vstd::std_specs::iter::IteratorSpec::remaining(&entries);
        let ghost pages = pairs.map_values(|pair: (&u64, &PresentPageTableEntry)| *pair.0);
        proof {
            lemma_increasing_is_sorted(pages);
        }
        for pair in it: entries
            invariant
                it.seq() == pairs,
                sorted(res@),
                sorted(pages),
                pages == pairs.map_values(|pair: (&u64, &PresentPageTableEntry)| *pair.0),
                forall|i: int|
                    0 <= i < pairs.len() ==> #[trigger] self.entries@.contains_key(*pairs[i].0)
                        && self.entries@[*pairs[i].0] == *pairs[i].1,
                forall|page: u64| #[trigger]
                    res@.contains(page) <==> pages.take(it.index()).contains(page)
                        && self@[page].dirty,
        {
            let ghost seen = res@;
            let ghost index = it.index();
            assert(pages[index] == *pair.0);
            assert(self.entries@.contains_key(*pairs[index].0));
            assert(pages.take(index + 1) =~= pages.take(index).push(*pair.0));
            if pair.1.dirty {
                assert forall|k: int| 0 <= k < res@.len() implies res@[k] < *pair.0 by {
                    assert(res@.contains(res@[k]));
                    let i = choose|i: int| 0 <= i < index && pages.take(index)[i] == res@[k];
                    assert(pages[i] == res@[k]);
                }
                res.push(*pair.0);
                assert forall|page: u64| #[trigger]
                    res@.contains(page) <==> seen.contains(page) || page == *pair.0 by {
                    if seen.contains(page) {
                        let k = choose|k: int| 0 <= k < seen.len() && seen[k] == page;
                        assert(res@[k] == page);
                    }
                    assert(res@[res@.len() - 1] == *pair.0);
                }
            }
            assert forall|page: u64| #[trigger]
                pages.take(index + 1).contains(page) <==> pages.take(index).contains(page) || page
                    == *pair.0 by {
                if pages.take(index).contains(page) {
                    let k = choose|k: int| 0 <= k < index && pages.take(index)[k] == page;
                    assert(pages.take(index + 1)[k] == page);
                }
                assert(pages.take(index + 1)[index] == *pair.0);
            }
        }
        assert(pages.take(pages.len() as int) =~= pages);
        assert forall|page: u64| #[trigger] pages.contains(page) <==> self@.contains_key(page) by {
            if self@.contains_key(page) {
                assert(self.entries@.contains_key(page));
                assert(pairs.contains((&page, &self.entries@[page])));
                let i = choose|i: int|
                    0 <= i < pairs.len() && pairs[i] == (&page, &self.entries@[page]);
                assert(pages[i] == page);
            }
        }
        res
    }
}

/// The keys of a map are iterated over in ascending order.
proof fn lemma_increasing_is_sorted(values: Seq<u64>)
    requires
        vstd::std_specs::btree::increasing_seq(values),
    ensures
        sorted(values),
{
    assert forall|i: int, j: int| 0 <= i < j < values.len() implies values[i] < values[j] by {
        assert(vstd::std_specs::cmp::OrdSpec::cmp_spec(&values[i], &values[j]) is Less);
    }
}

/// The values are in ascending order without duplicates.
pub open spec fn sorted(values: Seq<u64>) -> bool {
    forall|i: int, j: int| 0 <= i < j < values.len() ==> values[i] < values[j]
}

/// Replacing a part of a sequence puts the part at its offset and keeps everything else.
pub proof fn law_overwriting(bytes: Seq<u8>, offset: int, part: Seq<u8>, i: int)
    requires
        0 <= i < bytes.len(),
    ensures
        overwrite(bytes, offset, part).len() == bytes.len(),
        offset <= i < offset + part.len() ==> overwrite(bytes, offset, part)[i] == part[i - offset],
        i < offset || offset + part.len() <= i ==> overwrite(bytes, offset, part)[i] == bytes[i],
{
}

/// A page of content has the content from the offset on, and zeros past the end of the content.
pub proof fn law_padding(content: Seq<u8>, offset: int, i: int)
    requires
        0 <= offset,
        0 <= i < 4096,
    ensures
        padded(content, offset).len() == 4096,
        offset + i < content.len() ==> padded(content, offset)[i] == content[offset + i],
        offset + i >= content.len() ==> padded(content, offset)[i] == 0,
{
}

/// Attributes are added and removed one by one.
pub proof fn law_attributes(a: PageTableFlags, b: PageTableFlags)
    ensures
        a.plus(b).user <==> a.user || b.user,
        a.plus(b).writable <==> a.writable || b.writable,
        a.plus(b).executable <==> a.executable || b.executable,
        a.plus(b).cow <==> a.cow || b.cow,
        a.plus(b).global <==> a.global || b.global,
        a.plus(b).local <==> a.local || b.local,
        a.minus(b).user <==> a.user && !b.user,
        a.minus(b).writable <==> a.writable && !b.writable,
        a.minus(b).executable <==> a.executable && !b.executable,
        a.minus(b).cow <==> a.cow && !b.cow,
        a.minus(b).global <==> a.global && !b.global,
        a.minus(b).local <==> a.local && !b.local,
        a == PageTableFlags::none() <==> !a.user && !a.writable && !a.executable && !a.cow
            && !a.global && !a.local,
{
}

/// Changing the attributes of an entry keeps the content of the page, and writing to the page keeps the
/// attributes. What has been written is there afterwards, and nothing else has changed.
pub proof fn law_entries(entry: Entry, flags: PageTableFlags, offset: int, bytes: Seq<u8>, i: int)
    requires
        0 <= offset,
        offset + bytes.len() <= entry.bytes.len(),
        0 <= i < entry.bytes.len(),
    ensures
        entry.plus(flags).bytes == entry.bytes && entry.plus(flags).dirty == entry.dirty,
        entry.plus(flags).flags.writable == (entry.flags.writable || flags.writable),
        entry.plus(flags).flags.executable == (entry.flags.executable || flags.executable),
        entry.minus(flags).bytes == entry.bytes && entry.minus(flags).dirty == entry.dirty,
        entry.minus(flags).flags.writable == (entry.flags.writable && !flags.writable),
        entry.minus(flags).flags.executable == (entry.flags.executable && !flags.executable),
        entry.unshared().bytes == entry.bytes && entry.unshared().dirty == entry.dirty,
        !entry.unshared().flags.cow,
        entry.unshared().flags.writable == entry.flags.writable,
        entry.unshared().flags.executable == entry.flags.executable,
        entry.unshared().flags.user == entry.flags.user,
        entry.written(offset, bytes).dirty,
        entry.written(offset, bytes).flags == entry.flags,
        entry.written(offset, bytes).bytes.len() == entry.bytes.len(),
        entry.written(offset, bytes).bytes.subrange(offset, offset + bytes.len()) == bytes,
        i < offset || offset + bytes.len() <= i ==> entry.written(offset, bytes).bytes[i]
            == entry.bytes[i],
{
    assert(entry.written(offset, bytes).bytes.subrange(offset, offset + bytes.len()) =~= bytes);
}

/// A frame of its own holds its bytes, and a shared frame a page of the bytes that it shares.
pub proof fn law_content_of_frames(frame: Frame, i: int)
    requires
        frame.wf(),
        0 <= i < 4096,
    ensures
        frame.bytes().len() == 4096,
        match frame {
            Frame::Owned(bytes) => frame.bytes()[i] == bytes@[i],
            Frame::Shared(bytes, offset) => frame.bytes()[i] == bytes@[offset + i],
        },
{
}

} // verus!
