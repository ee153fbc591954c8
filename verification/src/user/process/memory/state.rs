//! The mappings of an address space.
use vstd::prelude::*;

use crate::addr::{
    self, Page, VirtAddr, ADDRESS_SPACE_SIZE, LAST_PAGE, LOWER_HALF_END, LOWER_HALF_LAST_PAGE,
    PAGE_SIZE, SIGN_EXTENSION, UPPER_HALF_START,
};
use crate::error::Error;
use crate::memory::pagetable::{Entry, PageTable, PageTableFlags};
use crate::user::process::memory::mapping::{
    self, Backing, Mapping, MemoryPermissions, PageInfo, Source,
};

verus! {

/// The mappings contain none of each other's memory.
pub open spec fn disjoint(mappings: Seq<Mapping>) -> bool {
    forall|i: int, j: int|
        0 <= i < j < mappings.len() ==> apart(#[trigger] mappings[i], #[trigger] mappings[j])
}

/// Two mappings contain none of each other's memory.
pub open spec fn apart(a: Mapping, b: Mapping) -> bool {
    a.end_address() <= b.start@ || b.end_address() <= a.start@
}

/// The mappings are well-formed and contain none of each other's memory.
pub open spec fn mappings_wf(mappings: Seq<Mapping>) -> bool {
    &&& forall|i: int| 0 <= i < mappings.len() ==> (#[trigger] mappings[i]).wf()
    &&& disjoint(mappings)
}

/// Whether a mapping contains a page.
pub open spec fn is_mapped(mappings: Seq<Mapping>, page: u64) -> bool {
    exists|i: int| 0 <= i < mappings.len() && (#[trigger] mappings[i]).covers(page as int)
}

/// The index of the mapping that contains a page.
pub open spec fn owner(mappings: Seq<Mapping>, page: u64) -> int {
    choose|i: int| 0 <= i < mappings.len() && (#[trigger] mappings[i]).covers(page as int)
}

/// What the mappings say about the pages.
pub open spec fn pages_of(mappings: Seq<Mapping>) -> Map<u64, PageInfo> {
    Map::new(
        |page: u64| addr::is_page(page) && is_mapped(mappings, page),
        |page: u64| mappings[owner(mappings, page)].info(page as int),
    )
}

/// The mapping that contains a page decides what is known about it.
pub proof fn lemma_owner(mappings: Seq<Mapping>, i: int, page: u64)
    requires
        mappings_wf(mappings),
        0 <= i < mappings.len(),
        mappings[i].covers(page as int),
        addr::is_page(page),
    ensures
        pages_of(mappings).contains_key(page),
        pages_of(mappings)[page] == mappings[i].info(page as int),
        owner(mappings, page) == i,
{
    let j = owner(mappings, page);
    assert(0 <= j < mappings.len() && mappings[j].covers(page as int));
    if i < j {
        assert(apart(mappings[i], mappings[j]));
    } else if j < i {
        assert(apart(mappings[j], mappings[i]));
    }
}

/// What the mappings say about the pages is decided by what each of them says.
pub proof fn lemma_pages(mappings: Seq<Mapping>, pages: Map<u64, PageInfo>)
    requires
        mappings_wf(mappings),
        forall|page: u64| #[trigger]
            pages.contains_key(page) ==> addr::is_page(page) && is_mapped(mappings, page),
        forall|i: int, page: u64|
            0 <= i < mappings.len() && addr::is_page(page) && (#[trigger] mappings[i]).covers(
                page as int,
            ) ==> #[trigger] pages.contains_key(page) && pages[page] == mappings[i].info(
                page as int,
            ),
    ensures
        pages_of(mappings) == pages,
{
    let known = pages_of(mappings);
    assert forall|page: u64| #[trigger] known.contains_key(page) implies pages.contains_key(page)
        && known[page] == pages[page] by {
        assert(addr::is_page(page) && is_mapped(mappings, page));
        let i = owner(mappings, page);
        assert(0 <= i < mappings.len() && mappings[i].covers(page as int));
        lemma_owner(mappings, i, page);
        assert(pages.contains_key(page) && pages[page] == mappings[i].info(page as int));
    }
    assert forall|page: u64| #[trigger] pages.contains_key(page) implies known.contains_key(
        page,
    ) by {
        assert(is_mapped(mappings, page));
    }
    assert(known.dom() =~= pages.dom());
    assert(known =~= pages);
}

/// The canonical address that is meant by a number, or the number itself if none is meant.
pub open spec fn extended(addr: int) -> int {
    if LOWER_HALF_END <= addr < ADDRESS_SPACE_SIZE {
        addr + SIGN_EXTENSION
    } else {
        addr
    }
}

/// Where unmapping starts: only whole pages are unmapped. The page after the lower half is the first
/// one of the upper half.
pub open spec fn unmap_start(addr: int) -> int {
    if addr % PAGE_SIZE as int == 0 {
        addr
    } else {
        extended(addr - addr % PAGE_SIZE as int + PAGE_SIZE)
    }
}

/// Where unmapping ends: only whole pages are unmapped. The end is sign extended if necessary.
pub open spec fn unmap_end(addr: int, len: int) -> int {
    let end = addr + len - (addr + len) % PAGE_SIZE as int;
    if end <= unmap_start(addr) {
        unmap_start(addr)
    } else {
        extended(end)
    }
}

/// Whether a range can be unmapped: its end is an address. If there are mappings, the page before
/// the end has to exist too.
pub open spec fn can_unmap(pages: Map<u64, PageInfo>, addr: int, len: int) -> bool {
    &&& 0 <= addr && 0 <= len
    &&& addr % PAGE_SIZE as int == 0 || addr < LAST_PAGE
    &&& addr::is_canonical(unmap_end(addr, len))
    &&& unmap_start(addr) < unmap_end(addr, len) && unmap_end(addr, len) == UPPER_HALF_START
        ==> nothing_mapped(pages)
}

/// The number of bytes from the start of a range on decides where unmapping ends.
proof fn lemma_unmap_bounds(addr: int, len: int, rest: int)
    requires
        addr::is_canonical(addr),
        0 <= len,
        addr % PAGE_SIZE as int == 0 || addr < LAST_PAGE,
        addr::is_canonical(unmap_end(addr, len)),
        rest == if addr + len > unmap_start(addr) {
            addr + len - unmap_start(addr)
        } else {
            0
        },
    ensures
        addr <= unmap_start(addr) <= unmap_end(addr, len),
        addr::is_canonical(unmap_start(addr)),
        unmap_start(addr) % PAGE_SIZE as int == 0,
        unmap_end(addr, len) % PAGE_SIZE as int == 0,
        addr::canonical_form(unmap_start(addr) + (rest - rest % PAGE_SIZE as int)) == Some(
            unmap_end(addr, len) as u64,
        ),
{
    let start = unmap_start(addr);
    let end = addr + len - (addr + len) % PAGE_SIZE as int;
    assert(start % PAGE_SIZE as int == 0);
    if addr + len > start {
        assert(start + (rest - rest % PAGE_SIZE as int) == end);
    } else {
        assert(end <= start);
    }
}

/// Whether there are no mappings.
pub open spec fn nothing_mapped(pages: Map<u64, PageInfo>) -> bool {
    forall|page: u64| !#[trigger] pages.contains_key(page)
}

/// What is known about a page after the mapping that contains it has been cut at the ends of a
/// range.
pub open spec fn clipped(info: PageInfo, page: int, start: int, end: int) -> PageInfo {
    PageInfo {
        start: if page >= end && info.start < end {
            end
        } else {
            info.start
        },
        end: if page < start && info.end > start {
            start
        } else {
            info.end
        },
        ..info
    }
}

/// What is known about the pages after a range has been unmapped.
pub open spec fn cut_out(pages: Map<u64, PageInfo>, start: int, end: int) -> Map<u64, PageInfo> {
    Map::new(
        |page: u64| pages.contains_key(page) && !(start <= page < end),
        |page: u64| clipped(pages[page], page as int, start, end),
    )
}

/// The entries of the page table after the mapped pages of a range have been removed.
pub open spec fn removed(
    table: Map<u64, Entry>,
    pages: Map<u64, PageInfo>,
    start: int,
    end: int,
) -> Map<u64, Entry> {
    Map::new(
        |page: u64| table.contains_key(page) && !(start <= page < end && pages.contains_key(page)),
        |page: u64| table[page],
    )
}

/// The mappings of an address space.
pub struct VirtualMemoryState {
    /// The mappings in no particular order.
    pub mappings: Vec<Mapping>,
}

/// How much work it takes to unmap a range from a mapping.
spec fn unmap_weight(mapping: Mapping, start: int, end: int) -> nat {
    if mapping.end_address() <= start || end <= mapping.start@ {
        1
    } else if mapping.start@ < start {
        5
    } else if mapping.end_address() > end {
        3
    } else {
        1
    }
}

/// How much work it takes to unmap a range from the mappings from an index on.
spec fn unmap_work(mappings: Seq<Mapping>, i: int, start: int, end: int) -> nat
    decreases mappings.len() - i,
{
    if i < 0 || i >= mappings.len() {
        0
    } else {
        unmap_weight(mappings[i], start, end) + unmap_work(mappings, i + 1, start, end)
    }
}

/// The work for mappings that are the same is the same.
proof fn lemma_same_work(a: Seq<Mapping>, b: Seq<Mapping>, i: int, start: int, end: int)
    requires
        0 <= i,
        a.len() == b.len(),
        forall|j: int| i <= j < a.len() ==> a[j] == b[j],
    ensures
        unmap_work(a, i, start, end) == unmap_work(b, i, start, end),
    decreases a.len() - i,
{
    if i < a.len() {
        lemma_same_work(a, b, i + 1, start, end);
    }
}

/// Adding a mapping adds its work.
proof fn lemma_push_work(a: Seq<Mapping>, m: Mapping, i: int, start: int, end: int)
    requires
        0 <= i <= a.len(),
    ensures
        unmap_work(a.push(m), i, start, end) == unmap_work(a, i, start, end) + unmap_weight(
            m,
            start,
            end,
        ),
    decreases a.len() - i,
{
    if i < a.len() {
        lemma_push_work(a, m, i + 1, start, end);
    } else {
        assert(unmap_work(a.push(m), i + 1, start, end) == 0);
    }
}

/// What is known about the pages after the mapping that spans an address has been split there.
pub open spec fn split_pages(pages: Map<u64, PageInfo>, cut: int) -> Map<u64, PageInfo> {
    Map::new(
        |page: u64| pages.contains_key(page),
        |page: u64| clipped(pages[page], page as int, cut, cut),
    )
}

/// Splitting a mapping only changes where the mappings start and end.
proof fn lemma_split(mappings: Seq<Mapping>, i: int, left: Mapping, right: Mapping)
    requires
        mappings_wf(mappings),
        0 <= i < mappings.len(),
        left.wf(),
        right.wf(),
        left.start@ == mappings[i].start@,
        left.end_address() == right.start@,
        right.end_address() == mappings[i].end_address(),
        left.permissions == mappings[i].permissions,
        right.permissions == mappings[i].permissions,
        forall|at: int| #[trigger] left.backing.source(at) == mappings[i].backing.source(at),
        forall|at: int| #[trigger]
            right.backing.source(at) == mappings[i].backing.source(
                right.start@ - mappings[i].start@ + at,
            ),
    ensures
        mappings_wf(mappings.update(i, left).push(right)),
        pages_of(mappings.update(i, left).push(right)) == split_pages(
            pages_of(mappings),
            right.start@ as int,
        ),
{
    let new = mappings.update(i, left).push(right);
    let pages = split_pages(pages_of(mappings), right.start@ as int);
    assert forall|a: int, b: int| 0 <= a < b < new.len() implies apart(
        #[trigger] new[a],
        #[trigger] new[b],
    ) by {
        let n = mappings.len();
        if a != i && b < n && b != i {
            assert(apart(mappings[a], mappings[b]));
        } else if a == i && b < n {
            assert(apart(mappings[i], mappings[b]));
        } else if b == i {
            assert(apart(mappings[a], mappings[i]));
        } else if a != i {
            if a < i {
                assert(apart(mappings[a], mappings[i]));
            } else {
                assert(apart(mappings[i], mappings[a]));
            }
        }
    }
    assert forall|j: int, page: u64|
        0 <= j < new.len() && addr::is_page(page) && (#[trigger] new[j]).covers(
            page as int,
        ) implies #[trigger] pages.contains_key(page) && pages[page] == new[j].info(page as int) by {
        let k = if j == mappings.len() {
            i
        } else {
            j
        };
        assert(mappings[k].covers(page as int));
        lemma_owner(mappings, k, page);
        if k != i {
            if k < i {
                assert(apart(mappings[k], mappings[i]));
            } else {
                assert(apart(mappings[i], mappings[k]));
            }
        }
    }
    assert forall|page: u64| #[trigger] pages.contains_key(page) implies addr::is_page(page)
        && is_mapped(new, page) by {
        let k = owner(mappings, page);
        assert(mappings[k].covers(page as int));
        if k == i && page >= right.start@ {
            assert(new[mappings.len() as int].covers(page as int));
        } else {
            assert(new[k].covers(page as int));
        }
    }
    lemma_pages(new, pages);
}

/// Removing a mapping removes its pages.
proof fn lemma_remove(mappings: Seq<Mapping>, i: int)
    requires
        mappings_wf(mappings),
        0 <= i < mappings.len(),
    ensures
        mappings_wf(mappings.update(i, mappings.last()).drop_last()),
        pages_of(mappings.update(i, mappings.last()).drop_last()) == Map::new(
            |page: u64|
                pages_of(mappings).contains_key(page) && !mappings[i].covers(page as int),
            |page: u64| pages_of(mappings)[page],
        ),
{
    let new = mappings.update(i, mappings.last()).drop_last();
    let last = mappings.len() - 1;
    let pages = Map::new(
        |page: u64| pages_of(mappings).contains_key(page) && !mappings[i].covers(page as int),
        |page: u64| pages_of(mappings)[page],
    );
    assert forall|a: int, b: int| 0 <= a < b < new.len() implies apart(
        #[trigger] new[a],
        #[trigger] new[b],
    ) by {
        if a == i {
            assert(apart(mappings[b], mappings[last]));
        } else if b == i {
            assert(apart(mappings[a], mappings[last]));
        } else {
            assert(apart(mappings[a], mappings[b]));
        }
    }
    assert forall|j: int, page: u64|
        0 <= j < new.len() && addr::is_page(page) && (#[trigger] new[j]).covers(
            page as int,
        ) implies #[trigger] pages.contains_key(page) && pages[page] == new[j].info(page as int) by {
        let k = if j == i {
            last
        } else {
            j
        };
        assert(mappings[k].covers(page as int));
        lemma_owner(mappings, k, page);
        if k < i {
            assert(apart(mappings[k], mappings[i]));
        } else {
            assert(apart(mappings[i], mappings[k]));
        }
    }
    assert forall|page: u64| #[trigger] pages.contains_key(page) implies addr::is_page(page)
        && is_mapped(new, page) by {
        let k = owner(mappings, page);
        assert(mappings[k].covers(page as int));
        if k == last {
            assert(new[i].covers(page as int));
        } else {
            assert(new[k].covers(page as int));
        }
    }
    lemma_pages(new, pages);
}

impl View for VirtualMemoryState {
    type V = Map<u64, PageInfo>;

    open spec fn view(&self) -> Map<u64, PageInfo> {
        pages_of(self.mappings@)
    }
}

/// Removes the pages of a range from the page table.
fn unmap_pages(table: &mut PageTable, start: Page, end: Page)
    requires
        old(table).wf(),
        start@ <= end@,
        end@ < LOWER_HALF_END || UPPER_HALF_START <= start@,
    ensures
        final(table).wf(),
        final(table)@ == Map::new(
            |page: u64| old(table)@.contains_key(page) && !(start@ <= page < end@),
            |page: u64| old(table)@[page],
        ),
{
    let end: u64 = end.start();
    let mut at: u64 = start.start();
    proof {
        table.lemma_entries_wf();
    }
    assert(table@ =~= Map::new(
        |page: u64| old(table)@.contains_key(page) && !(start@ <= page < at),
        |page: u64| old(table)@[page],
    ));
    while at < end
        invariant
            table.wf(),
            start@ <= at <= end,
            at % PAGE_SIZE == 0,
            end % PAGE_SIZE == 0,
            end < LOWER_HALF_END || UPPER_HALF_START <= start@,
            forall|page: u64| #[trigger] old(table)@.contains_key(page) ==> addr::is_page(page),
            table@ == Map::new(
                |page: u64| old(table)@.contains_key(page) && !(start@ <= page < at),
                |page: u64| old(table)@[page],
            ),
        decreases end - at,
    {
        let page: Page = Page::containing_address(VirtAddr::new(at));
        if table.is_present(page) {
            table.unmap_page(page);
        }
        at = at + PAGE_SIZE;
        assert(table@ =~= Map::new(
            |page: u64| old(table)@.contains_key(page) && !(start@ <= page < at),
            |page: u64| old(table)@[page],
        ));
    }
}

impl VirtualMemoryState {
    /// The mappings are well-formed and contain none of each other's memory.
    pub open spec fn wf(self) -> bool {
        mappings_wf(self.mappings@)
    }

    /// Creates a state without mappings.
    pub fn new() -> (res: Self)
        ensures
            res.wf(),
            res@ == Map::<u64, PageInfo>::empty(),
    {
        let res = VirtualMemoryState { mappings: Vec::new() };
        assert(res@ =~= Map::empty());
        res
    }

    /// Splits a mapping.
    fn split(&mut self, i: usize, offset_in_pages: u64)
        requires
            old(self).wf(),
            i < old(self).mappings@.len(),
            0 < offset_in_pages < old(self).mappings@[i as int].num_pages,
        ensures
            final(self).wf(),
            final(self)@ == split_pages(
                old(self)@,
                old(self).mappings@[i as int].start@ + offset_in_pages * PAGE_SIZE,
            ),
            final(self).mappings@.len() == old(self).mappings@.len() + 1,
            forall|j: int|
                0 <= j < old(self).mappings@.len() && j != i ==> #[trigger] final(self).mappings@[j]
                    == old(self).mappings@[j],
            final(self).mappings@[i as int].start@ == old(self).mappings@[i as int].start@,
            final(self).mappings@[i as int].num_pages == offset_in_pages,
            final(self).mappings@.last().start@ == old(self).mappings@[i as int].start@
                + offset_in_pages * PAGE_SIZE,
            final(self).mappings@.last().num_pages == old(self).mappings@[i as int].num_pages
                - offset_in_pages,
            final(self).mappings@.last().permissions == old(self).mappings@[i as int].permissions,
    {
        let ghost before = self.mappings@;
        let mapping: Mapping = self.mappings[i].split(offset_in_pages);
        let ghost left = self.mappings@[i as int];
        assert(self.mappings@ =~= before.update(i as int, left));
        self.mappings.push(mapping);
        proof {
            lemma_split(before, i as int, left, mapping);
        }
    }

    /// Unmaps the whole pages of a range.
    pub fn unmap(&mut self, addr: VirtAddr, len: u64, table: &mut PageTable)
        requires
            old(self).wf(),
            old(table).wf(),
            can_unmap(old(self)@, addr@ as int, len as int),
        ensures
            final(self).wf(),
            final(table).wf(),
            unmapped(
                old(self)@,
                old(table)@,
                addr@ as int,
                len as int,
                final(self)@,
                final(table)@,
            ),
    {
        proof {
            use_type_invariant(addr);
            addr::lemma_page_size_is_power_of_two();
        }
        // Page align the start.
        let start: VirtAddr = VirtAddr::new(addr::align_up(addr.as_u64(), PAGE_SIZE));
        assert(start@ == unmap_start(addr@ as int));
        let rest: u64 = len.saturating_sub(start.as_u64() - addr.as_u64());
        proof {
            lemma_unmap_bounds(addr@ as int, len as int, rest as int);
        }
        // Page align the end.
        let rest: u64 = addr::align_down(rest, PAGE_SIZE);
        let end: VirtAddr = VirtAddr::new(start.as_u64() + rest);
        assert(end@ == unmap_end(addr@ as int, len as int));
        let start: Page = Page::containing_address(start);
        let end: Page = Page::containing_address(end);
        if start.start() == end.start() {
            return;
        }
        self.unmap_range(start, end, table);
    }

    /// Unmaps a range of pages.
    fn unmap_range(&mut self, start: Page, end: Page, table: &mut PageTable)
        requires
            old(self).wf(),
            old(table).wf(),
            start@ < end@,
            end@ != UPPER_HALF_START || nothing_mapped(old(self)@),
        ensures
            final(self).wf(),
            final(table).wf(),
            final(self)@ == cut_out(old(self)@, start@ as int, end@ as int),
            final(table)@ == removed(old(table)@, old(self)@, start@ as int, end@ as int),
    {
        proof {
            use_type_invariant(start);
            use_type_invariant(end);
        }
        let ghost first = start@ as int;
        let ghost last = end@ as int;
        let num_pages: u64 = end.distance_from(start);
        let ghost old_pages = self@;
        let ghost old_table = table@;
        proof {
            table.lemma_entries_wf();
        }
        assert(table@ =~= unmapped_so_far(old_table, old_pages, self@, first, last));
        proof {
            self.lemma_nothing_mapped();
        }

        let mut i: usize = 0;
        while i < self.mappings.len()
            invariant
                self.wf(),
                table.wf(),
                i <= self.mappings@.len(),
                start@ == first,
                end@ == last,
                first < last,
                first % PAGE_SIZE as int == 0,
                last % PAGE_SIZE as int == 0,
                num_pages * PAGE_SIZE == last - first,
                addr::is_canonical(first),
                addr::is_canonical(last),
                last == UPPER_HALF_START ==> self.mappings@.len() == 0,
                is_part_way(old_pages, self@, first, last),
                forall|page: u64| #[trigger] old_table.contains_key(page) ==> addr::is_page(page),
                table@ == unmapped_so_far(old_table, old_pages, self@, first, last),
                forall|j: int|
                    0 <= j < i ==> (#[trigger] self.mappings@[j]).end_address() <= first || last
                        <= self.mappings@[j].start@,
            decreases unmap_work(self.mappings@, i as int, first, last),
        {
            let ghost before = self.mappings@;
            let ghost pages = self@;
            let mapping_start: u64 = self.mappings[i].start.start();
            let mapping_end: u64 = self.mappings[i].end().start();
            if !self.mappings[i].contains_page_range(start, num_pages) {
                i = i + 1;
                continue;
            }
            if mapping_start >= start.start() && mapping_end <= end.start() {
                let from: Page = self.mappings[i].start;
                let to: Page = self.mappings[i].end();
                unmap_pages(table, from, to);
                self.mappings.swap_remove(i);
                proof {
                    lemma_remove(before, i as int);
                    lemma_removed_part(old_pages, pages, self@, first, last, before[i as int]);
                    lemma_swap_remove_work(before, i as int, first, last);
                    assert forall|page: u64| #[trigger]
                        old_table.contains_key(page) && before[i as int].covers(
                            page as int,
                        ) implies pages.contains_key(page) by {
                        lemma_owner(before, i as int, page);
                    }
                }
                assert(table@ =~= unmapped_so_far(old_table, old_pages, self@, first, last));
                continue;
            }
            let cut: u64 = if start.start() > mapping_start {
                start.start()
            } else {
                end.start()
            };
            self.split(i, (cut - mapping_start) / PAGE_SIZE);
            proof {
                lemma_split_part(old_pages, pages, self@, first, last, cut as int);
                let new = self.mappings@;
                let shorter = new.drop_last();
                assert(new =~= shorter.push(new.last()));
                lemma_push_work(shorter, new.last(), i as int, first, last);
                lemma_same_work(shorter, before, i + 1, first, last);
            }
            assert(table@ =~= unmapped_so_far(old_table, old_pages, self@, first, last));
        }
        proof {
            lemma_unmap_done(old_pages, self.mappings@, first, last);
        }
        assert(table@ =~= removed(old_table, old_pages, first, last));
    }
}

/// What is known about the pages and the entries of the page table after a range has been
/// unmapped.
pub open spec fn unmapped(
    pages: Map<u64, PageInfo>,
    table: Map<u64, Entry>,
    addr: int,
    len: int,
    new_pages: Map<u64, PageInfo>,
    new_table: Map<u64, Entry>,
) -> bool {
    let start = unmap_start(addr);
    let end = unmap_end(addr, len);
    if start < end {
        &&& new_pages == cut_out(pages, start, end)
        &&& new_table == removed(table, pages, start, end)
    } else {
        &&& new_pages == pages
        &&& new_table == table
    }
}

/// The entries of the page table after those pages of a range have been removed that aren't mapped
/// any more.
spec fn unmapped_so_far(
    table: Map<u64, Entry>,
    old_pages: Map<u64, PageInfo>,
    pages: Map<u64, PageInfo>,
    start: int,
    end: int,
) -> Map<u64, Entry> {
    Map::new(
        |page: u64|
            table.contains_key(page) && (start <= page < end && old_pages.contains_key(page)
                ==> pages.contains_key(page)),
        |page: u64| table[page],
    )
}

/// A range has been unmapped in part: nothing outside of it has been changed, apart from mappings
/// having been cut at its ends.
spec fn is_part_way(
    old_pages: Map<u64, PageInfo>,
    pages: Map<u64, PageInfo>,
    start: int,
    end: int,
) -> bool {
    &&& forall|page: u64| #[trigger] pages.contains_key(page) ==> old_pages.contains_key(page)
    &&& forall|page: u64| #[trigger]
        old_pages.contains_key(page) && !(start <= page < end) ==> pages.contains_key(page)
            && clipped(pages[page], page as int, start, end) == clipped(
            old_pages[page],
            page as int,
            start,
            end,
        )
}

proof fn lemma_split_part(
    old_pages: Map<u64, PageInfo>,
    pages: Map<u64, PageInfo>,
    new_pages: Map<u64, PageInfo>,
    start: int,
    end: int,
    cut: int,
)
    requires
        start < end,
        cut == start || cut == end,
        is_part_way(old_pages, pages, start, end),
        new_pages == split_pages(pages, cut),
    ensures
        is_part_way(old_pages, new_pages, start, end),
        forall|page: u64| #[trigger] new_pages.contains_key(page) <==> pages.contains_key(page),
{
    assert forall|page: u64| #[trigger]
        old_pages.contains_key(page) && !(start <= page < end) implies new_pages.contains_key(page)
        && clipped(new_pages[page], page as int, start, end) == clipped(
        old_pages[page],
        page as int,
        start,
        end,
    ) by {
        assert(pages.contains_key(page));
        assert(new_pages[page] == clipped(pages[page], page as int, cut, cut));
    }
}

proof fn lemma_removed_part(
    old_pages: Map<u64, PageInfo>,
    pages: Map<u64, PageInfo>,
    new_pages: Map<u64, PageInfo>,
    start: int,
    end: int,
    mapping: Mapping,
)
    requires
        is_part_way(old_pages, pages, start, end),
        start <= mapping.start@,
        mapping.end_address() <= end,
        new_pages == Map::new(
            |page: u64| pages.contains_key(page) && !mapping.covers(page as int),
            |page: u64| pages[page],
        ),
    ensures
        is_part_way(old_pages, new_pages, start, end),
{
    assert forall|page: u64| #[trigger]
        old_pages.contains_key(page) && !(start <= page < end) implies new_pages.contains_key(page)
        && clipped(new_pages[page], page as int, start, end) == clipped(
        old_pages[page],
        page as int,
        start,
        end,
    ) by {
        assert(pages.contains_key(page));
    }
}

proof fn lemma_swap_remove_work(a: Seq<Mapping>, i: int, start: int, end: int)
    requires
        0 <= i < a.len(),
    ensures
        unmap_work(a.update(i, a.last()).drop_last(), i, start, end) < unmap_work(a, i, start, end),
{
    let b = a.update(i, a.last()).drop_last();
    assert(a =~= a.drop_last().push(a.last()));
    lemma_push_work(a.drop_last(), a.last(), i, start, end);
    if i < a.len() - 1 {
        lemma_same_work(a.drop_last(), b, i + 1, start, end);
        lemma_push_work(a.drop_last(), a.last(), i + 1, start, end);
    }
}

/// Once no mapping overlaps the range, it has been unmapped.
proof fn lemma_unmap_done(old_pages: Map<u64, PageInfo>, mappings: Seq<Mapping>, start: int, end: int)
    requires
        mappings_wf(mappings),
        start < end,
        is_part_way(old_pages, pages_of(mappings), start, end),
        forall|j: int|
            0 <= j < mappings.len() ==> (#[trigger] mappings[j]).end_address() <= start || end
                <= mappings[j].start@,
    ensures
        pages_of(mappings) == cut_out(old_pages, start, end),
        forall|page: u64| start <= page < end ==> !#[trigger] pages_of(mappings).contains_key(page),
{
    let pages = pages_of(mappings);
    assert forall|page: u64| #[trigger] pages.contains_key(page) implies !(start <= page < end)
        && clipped(pages[page], page as int, start, end) == pages[page] by {
        let i = owner(mappings, page);
        assert(mappings[i].covers(page as int));
        lemma_owner(mappings, i, page);
    }
    assert(pages =~= cut_out(old_pages, start, end));
}

/// What is known about the pages after the last page of the mapping that contains a page has been
/// split off and got permissions in addition to its own.
pub open spec fn bordered_pages(
    pages: Map<u64, PageInfo>,
    page: u64,
    permissions: MemoryPermissions,
) -> Map<u64, PageInfo> {
    let info = pages[page];
    let last = info.end - PAGE_SIZE;
    Map::new(
        |q: u64| pages.contains_key(q),
        |q: u64|
            if info.start <= q < last {
                PageInfo { end: last, ..pages[q] }
            } else if last <= q < info.end {
                PageInfo {
                    start: last,
                    permissions: pages[q].permissions.plus(permissions),
                    ..pages[q]
                }
            } else {
                pages[q]
            },
    )
}

/// An address space: what is known about the pages and the entries of the page table.
#[verifier::ext_equal]
pub struct Memory {
    /// What is known about the pages.
    pub pages: Map<u64, PageInfo>,
    /// The entries of the page table.
    pub table: Map<u64, Entry>,
}

impl Memory {
    /// What is known about a page after memory has been placed in a part of it.
    pub open spec fn border_info(self, page: u64, permissions: MemoryPermissions) -> PageInfo {
        if self.pages.contains_key(page) {
            PageInfo {
                permissions: self.pages[page].permissions.plus(permissions),
                ..self.pages[page]
            }
        } else {
            PageInfo {
                start: page as int,
                end: page + PAGE_SIZE,
                permissions,
                source: Source::Zero,
            }
        }
    }

    /// Whether memory can be placed in a part of a page: the page has to be readable.
    pub open spec fn can_border(self, page: u64, permissions: MemoryPermissions) -> bool {
        self.border_info(page, permissions).permissions.read
    }

    /// Whether the page can be brought in. If it's part of a file, it has to be the last page of
    /// its mapping.
    pub open spec fn border_fillable(self, page: u64, permissions: MemoryPermissions) -> bool {
        self.pages.contains_key(page) && !self.table.contains_key(page) && self.can_border(
            page,
            permissions,
        ) ==> {
            &&& self.pages[page].source.fillable()
            &&& self.pages[page].source is File ==> page + PAGE_SIZE == self.pages[page].end
        }
    }

    /// The address space after memory has been placed in a part of a page.
    ///
    /// If a mapping contains the page, the last page of that mapping is split off and gets the
    /// permissions in addition to its own. Otherwise the page gets a mapping of its own.
    #[verifier::opaque]
    pub open spec fn bordered(
        self,
        page: u64,
        permissions: MemoryPermissions,
        offset: int,
        bytes: Seq<u8>,
    ) -> Memory {
        let ok = self.can_border(page, permissions);
        Memory {
            pages: if self.pages.contains_key(page) {
                bordered_pages(self.pages, page, permissions)
            } else if ok {
                self.pages.insert(page, self.border_info(page, permissions))
            } else {
                self.pages
            },
            table: if ok {
                self.table.insert(
                    page,
                    mapping::entry_or_filled(
                        self.table,
                        self.border_info(page, permissions),
                        page,
                    ).unshared().written(offset, bytes),
                )
            } else {
                self.table
            },
        }
    }
}

/// Each page is in the range that its mapping is said to have, and the pages in that range belong
/// to the same mapping.
pub open spec fn regions_wf(pages: Map<u64, PageInfo>) -> bool {
    &&& forall|page: u64| #[trigger]
        pages.contains_key(page) ==> {
            &&& addr::is_page(page)
            &&& pages[page].start <= page
            &&& page + PAGE_SIZE <= pages[page].end
            &&& pages[page].start % PAGE_SIZE as int == 0
            &&& pages[page].end % PAGE_SIZE as int == 0
            &&& mapping::is_range(pages[page].start, pages[page].end - pages[page].start)
        }
    &&& forall|p: u64, q: u64|
        pages.contains_key(p) && addr::is_page(q) && pages[p].start <= q < pages[p].end
            ==> pages.contains_key(q) && #[trigger] same_mapping(pages[p], pages[q])
}

/// Two pages belong to the same mapping.
pub open spec fn same_mapping(a: PageInfo, b: PageInfo) -> bool {
    &&& a.start == b.start
    &&& a.end == b.end
    &&& a.permissions == b.permissions
    &&& a.source is File == b.source is File
}

/// What well-formed mappings say about the pages is well-formed.
pub proof fn lemma_regions(mappings: Seq<Mapping>)
    requires
        mappings_wf(mappings),
    ensures
        regions_wf(pages_of(mappings)),
{
    let pages = pages_of(mappings);
    assert forall|page: u64| #[trigger] pages.contains_key(page) implies {
        &&& addr::is_page(page)
        &&& pages[page].start <= page
        &&& page + PAGE_SIZE <= pages[page].end
        &&& pages[page].start % PAGE_SIZE as int == 0
        &&& pages[page].end % PAGE_SIZE as int == 0
        &&& mapping::is_range(pages[page].start, pages[page].end - pages[page].start)
    } by {
        let i = owner(mappings, page);
        assert(mappings[i].covers(page as int));
        assert(mappings[i].wf());
    }
    assert forall|p: u64, q: u64|
        pages.contains_key(p) && addr::is_page(q) && pages[p].start <= q
            < pages[p].end implies pages.contains_key(q) && #[trigger] same_mapping(
        pages[p],
        pages[q],
    ) by {
        let i = owner(mappings, p);
        assert(mappings[i].covers(p as int));
        assert(mappings[i].covers(q as int));
        lemma_owner(mappings, i, q);
    }
}

/// Splitting off the last page of a mapping and adding to its permissions.
proof fn lemma_border_pages(
    pages: Map<u64, PageInfo>,
    page: u64,
    permissions: MemoryPermissions,
)
    requires
        regions_wf(pages),
        pages.contains_key(page),
    ensures
        with_permissions(
            split_pages(pages, pages[page].end - PAGE_SIZE),
            pages[page].end - PAGE_SIZE,
            pages[page].end,
            pages[page].permissions.plus(permissions),
        ) == bordered_pages(pages, page, permissions),
        pages[page].end - pages[page].start == PAGE_SIZE ==> with_permissions(
            pages,
            pages[page].end - PAGE_SIZE,
            pages[page].end,
            pages[page].permissions.plus(permissions),
        ) == bordered_pages(pages, page, permissions),
{
    let info = pages[page];
    let last = info.end - PAGE_SIZE;
    let split = split_pages(pages, last);
    let new = with_permissions(split, last, info.end, info.permissions.plus(permissions));
    let expected = bordered_pages(pages, page, permissions);
    assert forall|q: u64| #[trigger] pages.contains_key(q) implies new[q] == expected[q] by {
        assert(last >= info.start);
        if info.start <= q < info.end {
            assert(same_mapping(pages[page], pages[q]));
        } else if pages[q].start <= page < pages[q].end {
            assert(same_mapping(pages[q], pages[page]));
        } else {
            // The mapping of `q` doesn't contain the last page either.
            let l = last as u64;
            if pages[q].start <= l < pages[q].end {
                assert(same_mapping(pages[page], pages[l]));
                assert(same_mapping(pages[q], pages[l]));
            }
        }
    }
    assert(new =~= expected);
    if info.end - info.start == PAGE_SIZE {
        let new = with_permissions(pages, last, info.end, info.permissions.plus(permissions));
        assert(new =~= expected);
    }
}

/// Changing the permissions of a mapping changes the permissions of its pages.
proof fn lemma_set_permissions(mappings: Seq<Mapping>, i: int, permissions: MemoryPermissions)
    requires
        mappings_wf(mappings),
        0 <= i < mappings.len(),
    ensures
        mappings_wf(mappings.update(i, Mapping { permissions, ..mappings[i] })),
        pages_of(mappings.update(i, Mapping { permissions, ..mappings[i] })) == with_permissions(
            pages_of(mappings),
            mappings[i].start@ as int,
            mappings[i].end_address(),
            permissions,
        ),
{
    let new = mappings.update(i, Mapping { permissions, ..mappings[i] });
    let pages = with_permissions(
        pages_of(mappings),
        mappings[i].start@ as int,
        mappings[i].end_address(),
        permissions,
    );
    assert forall|a: int, b: int| 0 <= a < b < new.len() implies apart(
        #[trigger] new[a],
        #[trigger] new[b],
    ) by {
        assert(apart(mappings[a], mappings[b]));
    }
    assert forall|j: int, page: u64|
        0 <= j < new.len() && addr::is_page(page) && (#[trigger] new[j]).covers(
            page as int,
        ) implies #[trigger] pages.contains_key(page) && pages[page] == new[j].info(page as int) by {
        assert(mappings[j].covers(page as int));
        lemma_owner(mappings, j, page);
        if j < i {
            assert(apart(mappings[j], mappings[i]));
        } else if i < j {
            assert(apart(mappings[i], mappings[j]));
        }
    }
    assert forall|page: u64| #[trigger] pages.contains_key(page) implies addr::is_page(page)
        && is_mapped(new, page) by {
        let k = owner(mappings, page);
        assert(mappings[k].covers(page as int));
        assert(new[k].covers(page as int));
    }
    lemma_pages(new, pages);
}

/// What is known about the pages after the permissions of a range have been replaced.
pub open spec fn with_permissions(
    pages: Map<u64, PageInfo>,
    start: int,
    end: int,
    permissions: MemoryPermissions,
) -> Map<u64, PageInfo> {
    Map::new(
        |page: u64| pages.contains_key(page),
        |page: u64|
            if start <= page < end {
                PageInfo { permissions, ..pages[page] }
            } else {
                pages[page]
            },
    )
}

/// Adding a mapping adds its pages.
proof fn lemma_push(mappings: Seq<Mapping>, mapping: Mapping)
    requires
        mappings_wf(mappings),
        mapping.wf(),
        forall|page: u64| #[trigger]
            pages_of(mappings).contains_key(page) ==> !mapping.covers(page as int),
    ensures
        mappings_wf(mappings.push(mapping)),
        pages_of(mappings.push(mapping)) == with_mapping(pages_of(mappings), mapping),
{
    let new = mappings.push(mapping);
    let pages = with_mapping(pages_of(mappings), mapping);
    assert forall|a: int, b: int| 0 <= a < b < new.len() implies apart(
        #[trigger] new[a],
        #[trigger] new[b],
    ) by {
        if b < mappings.len() {
            assert(apart(mappings[a], mappings[b]));
        } else {
            assert(mappings[a].wf());
            if mappings[a].covers(mapping.start@ as int) {
                lemma_owner(mappings, a, mapping.start@);
                assert(pages_of(mappings).contains_key(mapping.start@));
            }
            if mapping.covers(mappings[a].start@ as int) {
                lemma_owner(mappings, a, mappings[a].start@);
                assert(pages_of(mappings).contains_key(mappings[a].start@));
            }
        }
    }
    assert forall|j: int, page: u64|
        0 <= j < new.len() && addr::is_page(page) && (#[trigger] new[j]).covers(
            page as int,
        ) implies #[trigger] pages.contains_key(page) && pages[page] == new[j].info(page as int) by {
        if j < mappings.len() {
            assert(mappings[j].covers(page as int));
            lemma_owner(mappings, j, page);
            assert(pages_of(mappings).contains_key(page));
        }
    }
    assert forall|page: u64| #[trigger] pages.contains_key(page) implies addr::is_page(page)
        && is_mapped(new, page) by {
        if mapping.covers(page as int) && addr::is_page(page) {
            assert(new[mappings.len() as int].covers(page as int));
        } else {
            let k = owner(mappings, page);
            assert(mappings[k].covers(page as int));
            assert(new[k].covers(page as int));
        }
    }
    lemma_pages(new, pages);
}

/// What is known about the pages after a mapping has been added.
pub open spec fn with_mapping(pages: Map<u64, PageInfo>, mapping: Mapping) -> Map<u64, PageInfo> {
    Map::new(
        |page: u64|
            pages.contains_key(page) || (addr::is_page(page) && mapping.covers(page as int)),
        |page: u64|
            if mapping.covers(page as int) {
                mapping.info(page as int)
            } else {
                pages[page]
            },
    )
}

impl VirtualMemoryState {
    /// Finds the mapping that contains a page.
    pub fn find(&self, page: Page) -> (res: Option<usize>)
        requires
            self.wf(),
        ensures
            res is Some == self@.contains_key(page@),
            res matches Some(i) ==> {
                &&& i < self.mappings@.len()
                &&& self.mappings@[i as int].covers(page@ as int)
                &&& self@[page@] == self.mappings@[i as int].info(page@ as int)
            },
    {
        proof {
            use_type_invariant(page);
        }
        let mut i: usize = 0;
        while i < self.mappings.len()
            invariant
                self.wf(),
                page.wf(),
                i <= self.mappings@.len(),
                forall|j: int| 0 <= j < i ==> !(#[trigger] self.mappings@[j]).covers(page@ as int),
            decreases self.mappings@.len() - i,
        {
            if self.mappings[i].contains_page(page) {
                proof {
                    lemma_owner(self.mappings@, i as int, page@);
                }
                return Some(i);
            }
            i = i + 1;
        }
        None
    }

    /// Replaces the permissions of a mapping.
    pub fn set_permissions(&mut self, i: usize, permissions: MemoryPermissions)
        requires
            old(self).wf(),
            i < old(self).mappings@.len(),
        ensures
            final(self).wf(),
            final(self).mappings@ == old(self).mappings@.update(
                i as int,
                (Mapping { permissions, ..old(self).mappings@[i as int] }),
            ),
            final(self)@ == with_permissions(
                old(self)@,
                old(self).mappings@[i as int].start@ as int,
                old(self).mappings@[i as int].end_address(),
                permissions,
            ),
    {
        proof {
            lemma_set_permissions(self.mappings@, i as int, permissions);
        }
        self.mappings[i].permissions = permissions;
        assert(self.mappings@ =~= old(self).mappings@.update(
            i as int,
            Mapping { permissions, ..old(self).mappings@[i as int] },
        ));
    }

    /// Adds a mapping.
    pub fn push(&mut self, mapping: Mapping)
        requires
            old(self).wf(),
            mapping.wf(),
            forall|page: u64| #[trigger]
                old(self)@.contains_key(page) ==> !mapping.covers(page as int),
        ensures
            final(self).wf(),
            final(self)@ == with_mapping(old(self)@, mapping),
    {
        proof {
            lemma_push(self.mappings@, mapping);
        }
        self.mappings.push(mapping);
    }

    /// Splits off the last page of the mapping that contains a page and adds to its permissions.
    /// Returns the index of the mapping of the last page.
    fn split_off_border(
        &mut self,
        existing: usize,
        page: Page,
        permissions: MemoryPermissions,
    ) -> (index: usize)
        requires
            old(self).wf(),
            page.wf(),
            existing < old(self).mappings@.len(),
            old(self).mappings@[existing as int].covers(page@ as int),
        ensures
            final(self).wf(),
            final(self)@ == bordered_pages(old(self)@, page@, permissions),
            index < final(self).mappings@.len(),
            final(self).mappings@[index as int].start@ == old(self)@[page@].end - PAGE_SIZE,
            final(self).mappings@[index as int].permissions == old(self)@[page@].permissions.plus(
                permissions,
            ),
            final(self).mappings@[index as int].backing is File == (old(self)@[page@].source is File),
            page@ + PAGE_SIZE == old(self)@[page@].end
                ==> final(self).mappings@[index as int].backing.source(0)
                == old(self)@[page@].source,
    {
        let ghost pages = self@;
        let ghost info = self@[page@];
        proof {
            lemma_regions(self.mappings@);
            lemma_owner(self.mappings@, existing as int, page@);
        }
        let num_pages: u64 = self.mappings[existing].num_pages;
        let index: usize = if num_pages > 1 {
            self.split(existing, num_pages - 1);
            self.mappings.len() - 1
        } else {
            existing
        };
        assert(self.mappings@[index as int].start@ == info.end - PAGE_SIZE);
        assert(self.mappings@[index as int].end_address() == info.end);
        let new_permissions: MemoryPermissions = self.mappings[index].permissions.union(permissions);
        self.set_permissions(index, new_permissions);
        proof {
            lemma_border_pages(pages, page@, permissions);
            let last = (info.end - PAGE_SIZE) as u64;
            assert(same_mapping(pages[page@], pages[last]));
            lemma_owner(self.mappings@, index as int, last);
        }
        index
    }

    /// Places memory in a part of a page.
    pub fn map_unaligned(
        &mut self,
        start: VirtAddr,
        len: u64,
        backing: &Backing,
        offset: u64,
        permissions: MemoryPermissions,
        table: &mut PageTable,
    ) -> (res: Result<(), Error>)
        requires
            old(self).wf(),
            old(table).wf(),
            start@ % PAGE_SIZE + len <= PAGE_SIZE,
            mapping::is_range(addr::page_of(start@) as int, PAGE_SIZE as int),
            backing.has_initial_memory(offset as int, len as int),
            (Memory { pages: old(self)@, table: old(table)@ }).border_fillable(
                addr::page_of(start@),
                permissions,
            ),
            !old(self)@.contains_key(addr::page_of(start@)) ==> !old(table)@.contains_key(
                addr::page_of(start@),
            ),
        ensures
            final(self).wf(),
            final(table).wf(),
            res == (if (Memory { pages: old(self)@, table: old(table)@ }).can_border(
                addr::page_of(start@),
                permissions,
            ) {
                Ok::<(), Error>(())
            } else {
                Err(Error::Fault)
            }),
            (Memory { pages: final(self)@, table: final(table)@ }) == (Memory {
                pages: old(self)@,
                table: old(table)@,
            }).bordered(
                addr::page_of(start@),
                permissions,
                (start@ % PAGE_SIZE) as int,
                backing.initial_memory(offset as int, len as int),
            ),
    {
        reveal(Memory::bordered);
        let ghost before = Memory { pages: self@, table: table@ };
        let ghost bytes = backing.initial_memory(offset as int, len as int);
        let page: Page = Page::containing_address(start);
        let ghost target = before.bordered(
            page@,
            permissions,
            (start@ % PAGE_SIZE) as int,
            bytes,
        );

        // Collect the unaligned part into a buffer.
        let mut buffer: Vec<u8> = Vec::new();
        buffer.resize(len as usize, 0);
        backing.copy_initial_memory_to_slice(offset, buffer.as_mut_slice());
        assert(buffer@ == bytes);

        proof {
            lemma_regions(self.mappings@);
        }
        match self.find(page) {
            Some(existing) => {
                let index: usize = self.split_off_border(existing, page, permissions);
                match self.mappings[index].remove_cow(page, table) {
                    Ok(()) => {},
                    Err(err) => {
                        return Err(err);
                    },
                }
            },
            None => {
                let mapping: Mapping = Mapping {
                    start: page,
                    num_pages: 1,
                    permissions,
                    backing: Backing::Zero,
                };
                match mapping.remove_cow(page, table) {
                    Ok(()) => {},
                    Err(err) => {
                        return Err(err);
                    },
                }
                self.push(mapping);
                assert(self@ =~= target.pages);
            },
        }
        table.write(page, start.page_offset() as usize, len as usize, buffer.as_slice(), 0);
        assert(buffer@.subrange(0, len as int) =~= buffer@);
        assert(table@ =~= target.table);
        Ok(())
    }
}

/// Whether any page of a range is mapped.
pub open spec fn any_mapped(pages: Map<u64, PageInfo>, start: int, end: int) -> bool {
    exists|page: u64| #[trigger] pages.contains_key(page) && start <= page < end
}

/// Whether a page is the first one of a range that is mapped.
pub open spec fn is_first_mapped(
    pages: Map<u64, PageInfo>,
    start: int,
    end: int,
    page: u64,
) -> bool {
    &&& pages.contains_key(page)
    &&& start <= page < end
    &&& forall|q: u64| #[trigger] pages.contains_key(q) && start <= q < end ==> page <= q
}

/// Where the part of a mapping that gets new permissions ends. If the mapping starts before the
/// range, this is the end of the mapping.
pub open spec fn protect_end(info: PageInfo, start: int, end: int) -> int {
    if info.start < start || info.end < end {
        info.end
    } else {
        end
    }
}

/// What is known about the pages after a mapping has been split at the ends of a range and the
/// permissions have been replaced.
pub open spec fn protected(
    pages: Map<u64, PageInfo>,
    info: PageInfo,
    start: int,
    end: int,
    permissions: MemoryPermissions,
) -> Map<u64, PageInfo> {
    let from = if info.start < start {
        start
    } else {
        info.start
    };
    let to = if info.end < end {
        info.end
    } else {
        end
    };
    Map::new(
        |page: u64| pages.contains_key(page),
        |page: u64|
            if info.start <= page < info.end {
                PageInfo {
                    start: if page < from {
                        info.start
                    } else if page < to {
                        from
                    } else {
                        to
                    },
                    end: if page < from {
                        from
                    } else if page < to {
                        to
                    } else {
                        info.end
                    },
                    permissions: if from <= page < protect_end(info, start, end) {
                        permissions
                    } else {
                        info.permissions
                    },
                    source: pages[page].source,
                }
            } else {
                pages[page]
            },
    )
}

/// The entries of the page table after attributes have been removed in a range.
pub open spec fn without_flags(
    table: Map<u64, Entry>,
    start: int,
    end: int,
    flags: PageTableFlags,
) -> Map<u64, Entry> {
    Map::new(
        |page: u64| table.contains_key(page),
        |page: u64|
            if start <= page < end {
                table[page].minus(flags)
            } else {
                table[page]
            },
    )
}

proof fn lemma_without_flags_step(
    table: Map<u64, Entry>,
    start: int,
    at: u64,
    flags: PageTableFlags,
)
    requires
        start <= at,
        at % PAGE_SIZE == 0,
        forall|page: u64| #[trigger] table.contains_key(page) ==> addr::is_page(page),
    ensures
        without_flags(table, start, at + PAGE_SIZE, flags) == if table.contains_key(at) {
            without_flags(table, start, at as int, flags).insert(at, table[at].minus(flags))
        } else {
            without_flags(table, start, at as int, flags)
        },
        without_flags(table, start, at as int, flags).contains_key(at) == table.contains_key(at),
        table.contains_key(at) ==> without_flags(table, start, at as int, flags)[at] == table[at],
{
    let before = without_flags(table, start, at as int, flags);
    let after = without_flags(table, start, at + PAGE_SIZE, flags);
    assert forall|page: u64| #[trigger] table.contains_key(page) && page != at implies after[page]
        == before[page] by {
        assert(addr::is_page(page));
    }
    if table.contains_key(at) {
        assert(after =~= before.insert(at, table[at].minus(flags)));
    } else {
        assert(after =~= before);
    }
}

/// Removes attributes from the pages of a range.
fn remove_flags(table: &mut PageTable, start: Page, end: Page, flags: PageTableFlags)
    requires
        old(table).wf(),
        !flags.cow,
        start@ <= end@,
        end@ < LOWER_HALF_END || UPPER_HALF_START <= start@,
    ensures
        final(table).wf(),
        final(table)@ == without_flags(old(table)@, start@ as int, end@ as int, flags),
{
    let end: u64 = end.start();
    let mut at: u64 = start.start();
    proof {
        table.lemma_entries_wf();
    }
    assert(table@ =~= without_flags(old(table)@, start@ as int, at as int, flags));
    while at < end
        invariant
            table.wf(),
            !flags.cow,
            start@ <= at <= end,
            at % PAGE_SIZE == 0,
            end % PAGE_SIZE == 0,
            end < LOWER_HALF_END || UPPER_HALF_START <= start@,
            forall|page: u64| #[trigger] old(table)@.contains_key(page) ==> addr::is_page(page),
            table@ == without_flags(old(table)@, start@ as int, at as int, flags),
        decreases end - at,
    {
        let page: Page = Page::containing_address(VirtAddr::new(at));
        assert(page@ == at);
        proof {
            lemma_without_flags_step(old(table)@, start@ as int, at, flags);
        }
        table.remove_flags(page, flags);
        at = at + PAGE_SIZE;
        assert(table@ == without_flags(old(table)@, start@ as int, at as int, flags));
    }
}

/// Removing no attributes changes nothing.
proof fn lemma_no_flags(table: Map<u64, Entry>, start: int, end: int)
    ensures
        without_flags(table, start, end, PageTableFlags::none()) == table,
{
    assert(without_flags(table, start, end, PageTableFlags::none()) =~= table);
}

proof fn lemma_protect_from_start(
    pages: Map<u64, PageInfo>,
    first: u64,
    start: int,
    end: int,
    permissions: MemoryPermissions,
)
    requires
        regions_wf(pages),
        pages.contains_key(first),
        start <= pages[first].start < end,
        end % PAGE_SIZE as int == 0,
        is_first_mapped(pages, start, end, first),
    ensures
        ({
            let info = pages[first];
            let new = protected(pages, info, start, end, permissions);
            &&& info.end <= end ==> new == with_permissions(pages, info.start, info.end, permissions)
            &&& info.end > end ==> new == with_permissions(
                split_pages(pages, end),
                info.start,
                end,
                permissions,
            )
        }),
{
    let info = pages[first];
    let new = protected(pages, info, start, end, permissions);
    if info.end <= end {
        let res = with_permissions(pages, info.start, info.end, permissions);
        assert forall|q: u64| #[trigger] pages.contains_key(q) implies res[q] == new[q] by {
            if info.start <= q < info.end {
                assert(same_mapping(pages[first], pages[q]));
            }
        }
        assert(res =~= new);
    } else {
        let res = with_permissions(split_pages(pages, end), info.start, end, permissions);
        assert forall|q: u64| #[trigger] pages.contains_key(q) implies res[q] == new[q] by {
            lemma_straddles(pages, first, q, end);
        }
        assert(res =~= new);
    }
}

/// Only one mapping spans an address.
proof fn lemma_straddles(pages: Map<u64, PageInfo>, p: u64, q: u64, cut: int)
    requires
        regions_wf(pages),
        pages.contains_key(p),
        pages.contains_key(q),
        cut % PAGE_SIZE as int == 0,
        pages[p].start < cut < pages[p].end,
    ensures
        pages[p].start <= q < pages[p].end ==> same_mapping(pages[p], pages[q]),
        !(pages[p].start <= q < pages[p].end) ==> !(pages[q].start < cut < pages[q].end),
{
    if pages[p].start <= q < pages[p].end {
        assert(same_mapping(pages[p], pages[q]));
    } else if pages[q].start < cut < pages[q].end {
        let c = cut as u64;
        assert(addr::is_page(c));
        assert(same_mapping(pages[p], pages[c]));
        assert(same_mapping(pages[q], pages[c]));
    }
}

proof fn lemma_protect_from_middle(
    pages: Map<u64, PageInfo>,
    first: u64,
    start: int,
    end: int,
    permissions: MemoryPermissions,
)
    requires
        regions_wf(pages),
        pages.contains_key(first),
        pages[first].start < start < end,
        start < pages[first].end,
        start % PAGE_SIZE as int == 0,
        end % PAGE_SIZE as int == 0,
    ensures
        ({
            let info = pages[first];
            let new = protected(pages, info, start, end, permissions);
            let split = with_permissions(split_pages(pages, start), start, info.end, permissions);
            &&& info.end <= end ==> new == split
            &&& info.end > end ==> new == split_pages(split, end)
        }),
{
    let info = pages[first];
    let new = protected(pages, info, start, end, permissions);
    let split = with_permissions(split_pages(pages, start), start, info.end, permissions);
    let res = if info.end <= end {
        split
    } else {
        split_pages(split, end)
    };
    assert forall|q: u64| #[trigger] pages.contains_key(q) implies res[q] == new[q] by {
        lemma_straddles(pages, first, q, start);
        if info.end > end {
            lemma_straddles(pages, first, q, end);
        }
    }
    assert(res =~= new);
}

/// What is known about the pages and the entries of the page table after the protection of a range
/// has been changed. Only the mapping of the first page that is mapped is affected.
pub open spec fn protect_result(
    memory: Memory,
    start: int,
    end: int,
    permissions: MemoryPermissions,
    new: Memory,
) -> bool {
    exists|first: u64|
        #![trigger memory.pages[first]]
        is_first_mapped(memory.pages, start, end, first) && {
            let info = memory.pages[first];
            new == (Memory {
                pages: protected(memory.pages, info, start, end, permissions),
                table: without_flags(
                    memory.table,
                    if info.start < start {
                        start
                    } else {
                        info.start
                    },
                    protect_end(info, start, end),
                    mapping::flags_of(info.permissions.minus(permissions)),
                ),
            })
        }
}

impl VirtualMemoryState {
    /// Finds the lowest mapping that contains memory in a range.
    fn find_lowest(&self, addr: Page, num_pages: u64) -> (res: Option<usize>)
        requires
            self.wf(),
            num_pages > 0,
            nothing_mapped(self@) || addr::canonical_form(
                addr@ + (num_pages - 1) * PAGE_SIZE,
            ) is Some,
        ensures
            res is Some == any_mapped(
                self@,
                addr@ as int,
                range_end(addr@ as int, num_pages * PAGE_SIZE),
            ),
            res matches Some(i) ==> {
                &&& i < self.mappings@.len()
                &&& self.mappings@[i as int].start@ < range_end(
                    addr@ as int,
                    num_pages * PAGE_SIZE,
                )
                &&& addr@ < self.mappings@[i as int].end_address()
                &&& is_first_mapped(
                    self@,
                    addr@ as int,
                    range_end(addr@ as int, num_pages * PAGE_SIZE),
                    if self.mappings@[i as int].start@ < addr@ {
                        addr@
                    } else {
                        self.mappings@[i as int].start@
                    },
                )
            },
    {
        proof {
            use_type_invariant(addr);
        }
        let ghost start = addr@ as int;
        let ghost end = range_end(start, num_pages * PAGE_SIZE);
        proof {
            self.lemma_nothing_mapped();
        }
        let mut lowest: Option<usize> = None;
        let mut i: usize = 0;
        while i < self.mappings.len()
            invariant
                self.wf(),
                addr.wf(),
                num_pages > 0,
                self.mappings@.len() == 0 || addr::canonical_form(
                    addr@ + (num_pages - 1) * PAGE_SIZE,
                ) is Some,
                start == addr@,
                end == range_end(start, num_pages * PAGE_SIZE),
                i <= self.mappings@.len(),
                lowest is None ==> forall|j: int|
                    0 <= j < i ==> !((#[trigger] self.mappings@[j]).start@ < end && start
                        < self.mappings@[j].end_address()),
                lowest matches Some(k) ==> {
                    &&& k < i
                    &&& self.mappings@[k as int].start@ < end
                    &&& start < self.mappings@[k as int].end_address()
                    &&& forall|j: int|
                        0 <= j < i && (#[trigger] self.mappings@[j]).start@ < end && start
                            < self.mappings@[j].end_address() ==> self.mappings@[k as int].start@
                            <= self.mappings@[j].start@
                },
            decreases self.mappings@.len() - i,
        {
            assert(self.mappings@[i as int].wf());
            if self.mappings[i].contains_page_range(addr, num_pages) {
                match lowest {
                    Some(k) => {
                        if self.mappings[i].start.start() < self.mappings[k].start.start() {
                            lowest = Some(i);
                        }
                    },
                    None => {
                        lowest = Some(i);
                    },
                }
            }
            i = i + 1;
        }
        proof {
            match lowest {
                Some(k) => {
                    let mapping = self.mappings@[k as int];
                    assert(mapping.wf());
                    let first = if mapping.start@ < addr@ {
                        addr@
                    } else {
                        mapping.start@
                    };
                    lemma_owner(self.mappings@, k as int, first);
                    assert forall|q: u64| #[trigger] self@.contains_key(q) && start <= q
                        < end implies first <= q by {
                        let j = owner(self.mappings@, q);
                        assert(self.mappings@[j].covers(q as int));
                    }
                    assert(self@.contains_key(first));
                },
                None => {
                    assert forall|q: u64| #[trigger] self@.contains_key(q) implies !(start <= q
                        < end) by {
                        let j = owner(self.mappings@, q);
                        assert(self.mappings@[j].covers(q as int));
                    }
                },
            }
        }
        lowest
    }

    /// Removes attributes from a range of pages if there are any to remove.
    fn revoke(
        table: &mut PageTable,
        start: Page,
        end: Page,
        old_permissions: MemoryPermissions,
        permissions: MemoryPermissions,
    )
        requires
            old(table).wf(),
            start@ <= end@,
            end@ < LOWER_HALF_END || UPPER_HALF_START <= start@,
        ensures
            final(table).wf(),
            final(table)@ == without_flags(
                old(table)@,
                start@ as int,
                end@ as int,
                mapping::flags_of(old_permissions.minus(permissions)),
            ),
    {
        // Check if permissions have been removed.
        let removed_permissions: MemoryPermissions = old_permissions.difference(permissions);
        let flags: PageTableFlags = PageTableFlags::from(removed_permissions);
        if !flags.is_empty() {
            remove_flags(table, start, end, flags);
        } else {
            proof {
                lemma_no_flags(table@, start@ as int, end@ as int);
            }
        }
    }

    /// Splits a mapping that starts before a range. Everything from the start of the range on gets
    /// the permissions.
    fn protect_from_middle(
        &mut self,
        found: usize,
        addr: Page,
        num_pages: u64,
        permissions: MemoryPermissions,
        table: &mut PageTable,
    )
        requires
            old(self).wf(),
            old(table).wf(),
            addr.wf(),
            num_pages > 0,
            addr::canonical_form(addr@ + (num_pages - 1) * PAGE_SIZE) is Some,
            found < old(self).mappings@.len(),
            old(self).mappings@[found as int].start@ < addr@,
            addr@ < old(self).mappings@[found as int].end_address(),
        ensures
            final(self).wf(),
            final(table).wf(),
            ({
                let info = old(self).mappings@[found as int].info(addr@ as int);
                &&& final(self)@ == protected(
                    old(self)@,
                    info,
                    addr@ as int,
                    range_end(addr@ as int, num_pages * PAGE_SIZE),
                    permissions,
                )
                &&& final(table)@ == without_flags(
                    old(table)@,
                    addr@ as int,
                    info.end,
                    mapping::flags_of(info.permissions.minus(permissions)),
                )
            }),
    {
        let ghost pages = self@;
        let ghost end = range_end(addr@ as int, num_pages * PAGE_SIZE);
        let ghost info = self.mappings@[found as int].info(addr@ as int);
        let ghost split = with_permissions(
            split_pages(pages, addr@ as int),
            addr@ as int,
            info.end,
            permissions,
        );
        proof {
            lemma_range_end(addr@, num_pages, self.mappings@[found as int]);
        }
        assert(protected(pages, info, addr@ as int, end, permissions) == if info.end <= end {
            split
        } else {
            split_pages(split, end)
        }) by {
            lemma_regions(self.mappings@);
            lemma_owner(self.mappings@, found as int, addr@);
            lemma_protect_from_middle(pages, addr@, addr@ as int, end, permissions);
        }
        assert(self.mappings@[found as int].wf());
        let mapping_start: u64 = self.mappings[found].start.start();
        let old_permissions: MemoryPermissions = self.mappings[found].permissions;
        let offset: u64 = (addr.start() - mapping_start) / PAGE_SIZE;
        assert(mapping_start + offset * PAGE_SIZE == addr@);
        self.split(found, offset);
        let index: usize = self.mappings.len() - 1;
        assert(self.mappings@[index as int].start@ == addr@);
        assert(self.mappings@[index as int].end_address() == info.end);
        self.set_permissions(index, permissions);
        assert(self@ == split);
        assert(self.mappings@[index as int].wf());
        Self::revoke(
            table,
            self.mappings[index].start,
            self.mappings[index].end(),
            old_permissions,
            permissions,
        );
        if self.mappings[index].num_pages > num_pages {
            self.split(index, num_pages);
        }
    }

    /// Gives the part of a mapping that is inside of a range the permissions. The mapping doesn't
    /// start before the range, and no other mapping in the range comes before it.
    #[verifier::rlimit(20)]
    fn protect_from_start(
        &mut self,
        found: usize,
        addr: Page,
        num_pages: u64,
        permissions: MemoryPermissions,
        table: &mut PageTable,
    )
        requires
            old(self).wf(),
            old(table).wf(),
            addr.wf(),
            num_pages > 0,
            addr::canonical_form(addr@ + (num_pages - 1) * PAGE_SIZE) is Some,
            found < old(self).mappings@.len(),
            addr@ <= old(self).mappings@[found as int].start@,
            old(self).mappings@[found as int].start@ < addr@ + num_pages * PAGE_SIZE,
            is_first_mapped(
                old(self)@,
                addr@ as int,
                range_end(addr@ as int, num_pages * PAGE_SIZE),
                old(self).mappings@[found as int].start@,
            ),
        ensures
            final(self).wf(),
            final(table).wf(),
            ({
                let start = old(self).mappings@[found as int].start@;
                let info = old(self).mappings@[found as int].info(start as int);
                let end = range_end(addr@ as int, num_pages * PAGE_SIZE);
                &&& final(self)@ == protected(old(self)@, info, addr@ as int, end, permissions)
                &&& final(table)@ == without_flags(
                    old(table)@,
                    start as int,
                    protect_end(info, addr@ as int, end),
                    mapping::flags_of(info.permissions.minus(permissions)),
                )
            }),
    {
        let ghost start = self.mappings@[found as int].start@;
        let ghost pages = self@;
        let ghost end = range_end(addr@ as int, num_pages * PAGE_SIZE);
        let ghost info = self.mappings@[found as int].info(start as int);
        proof {
            lemma_range_end(addr@, num_pages, self.mappings@[found as int]);
        }
        assert(protected(pages, info, addr@ as int, end, permissions) == if info.end <= end {
            with_permissions(pages, info.start, info.end, permissions)
        } else {
            with_permissions(split_pages(pages, end), info.start, end, permissions)
        }) by {
            lemma_regions(self.mappings@);
            lemma_owner(self.mappings@, found as int, start);
            lemma_protect_from_start(pages, start, addr@ as int, end, permissions);
        }
        assert(self.mappings@[found as int].wf());
        let mapping_start: u64 = self.mappings[found].start.start();
        let old_permissions: MemoryPermissions = self.mappings[found].permissions;
        let len: u64 = num_pages - (mapping_start - addr.start()) / PAGE_SIZE;
        if self.mappings[found].num_pages > len {
            self.split(found, len);
        }
        self.set_permissions(found, permissions);
        assert(self.mappings@[found as int].wf());
        Self::revoke(
            table,
            self.mappings[found].start,
            self.mappings[found].end(),
            old_permissions,
            permissions,
        );
    }

    /// Replaces the permissions of the lowest mapping that contains memory in a range.
    ///
    /// If that mapping starts before the range, it is split and everything from the start of the
    /// range on gets the permissions, otherwise only what is inside of the range.
    pub fn protect(
        &mut self,
        addr: Page,
        num_pages: u64,
        permissions: MemoryPermissions,
        table: &mut PageTable,
    ) -> (res: Result<(), Error>)
        requires
            old(self).wf(),
            old(table).wf(),
            num_pages > 0,
            can_protect(old(self)@, addr@ as int, num_pages * PAGE_SIZE),
        ensures
            final(self).wf(),
            final(table).wf(),
            res == (if any_mapped(
                old(self)@,
                addr@ as int,
                range_end(addr@ as int, num_pages * PAGE_SIZE),
            ) {
                Ok::<(), Error>(())
            } else {
                Err(Error::Fault)
            }),
            res is Err ==> final(self)@ == old(self)@ && final(table)@ == old(table)@,
            res is Ok ==> protect_result(
                (Memory { pages: old(self)@, table: old(table)@ }),
                addr@ as int,
                range_end(addr@ as int, num_pages * PAGE_SIZE),
                permissions,
                (Memory { pages: final(self)@, table: final(table)@ }),
            ),
    {
        proof {
            use_type_invariant(addr);
        }
        let ghost end = range_end(addr@ as int, num_pages * PAGE_SIZE);
        let ghost pages = self@;
        let found: usize = match self.find_lowest(addr, num_pages) {
            Some(found) => found,
            None => {
                return Err(Error::Fault);
            },
        };
        let ghost mapping = self.mappings@[found as int];
        let ghost first = if mapping.start@ < addr@ {
            addr@
        } else {
            mapping.start@
        };
        proof {
            assert(mapping.wf());
            lemma_owner(self.mappings@, found as int, first);
            assert(self@.contains_key(first));
            assert(mapping.start@ < addr@ + num_pages * PAGE_SIZE);
        }
        if self.mappings[found].start.start() < addr.start() {
            self.protect_from_middle(found, addr, num_pages, permissions, table);
        } else {
            self.protect_from_start(found, addr, num_pages, permissions, table);
        }
        assert(is_first_mapped(pages, addr@ as int, end, first));
        assert(pages[first] == mapping.info(first as int));
        Ok(())
    }
}

/// Where a range of pages ends. The address of its last page is sign extended if necessary.
pub open spec fn range_end(addr: int, len: int) -> int {
    extended(addr + len - PAGE_SIZE) + PAGE_SIZE
}

/// A mapping that starts before the end of a range of pages only reaches past that end if the end
/// doesn't have to be sign extended.
proof fn lemma_range_end(addr: u64, num_pages: u64, mapping: Mapping)
    requires
        addr::is_page(addr),
        num_pages > 0,
        addr::canonical_form(addr + (num_pages - 1) * PAGE_SIZE) is Some,
        mapping.wf(),
        mapping.start@ < addr + num_pages * PAGE_SIZE,
    ensures
        addr < range_end(addr as int, num_pages * PAGE_SIZE),
        range_end(addr as int, num_pages * PAGE_SIZE) % PAGE_SIZE as int == 0,
        addr + num_pages * PAGE_SIZE <= range_end(addr as int, num_pages * PAGE_SIZE),
        mapping.end_address() > addr + num_pages * PAGE_SIZE ==> range_end(
            addr as int,
            num_pages * PAGE_SIZE,
        ) == addr + num_pages * PAGE_SIZE,
{
}

/// Whether the protection of a range of pages can be changed. If there are mappings, the last page of
/// the range has to exist. If its address has to be sign extended, the first mapping in the range has
/// to be in the lower half.
pub open spec fn can_protect(pages: Map<u64, PageInfo>, addr: int, len: int) -> bool {
    ||| nothing_mapped(pages)
    ||| addr::is_canonical(addr + len - PAGE_SIZE)
    ||| {
        &&& LOWER_HALF_END <= addr + len - PAGE_SIZE < ADDRESS_SPACE_SIZE
        &&& any_mapped(pages, addr, range_end(addr, len)) ==> any_mapped(
            pages,
            addr,
            LOWER_HALF_END as int,
        )
    }
}

/// Whether no mapping contains memory in a range. The last address of the range is sign extended if
/// necessary.
pub open spec fn is_free(pages: Map<u64, PageInfo>, start: int, size: int) -> bool {
    size > 0 ==> forall|page: u64| #[trigger]
        pages.contains_key(page) ==> page + PAGE_SIZE <= start || extended(start + size - 1) < page
}

/// The page that a random number stands for: a page of the lower half.
pub open spec fn candidate(random: u64) -> u64 {
    addr::page_of((random % LOWER_HALF_END) as u64)
}

/// Whether there is a random number and it stands for the start of a free range.
pub open spec fn is_acceptable(
    pages: Map<u64, PageInfo>,
    random: Option<u64>,
    size: int,
) -> bool {
    random matches Some(random) && is_free(pages, candidate(random) as int, size)
}

/// How often a free address is searched for.
pub const MAX_ATTEMPTS: usize = 64;

/// How a search for a free address goes on.
#[derive(Clone, Copy, PartialEq, Eq, Structural, Debug)]
pub enum Attempt {
    /// The start of a free range has been found.
    Found(VirtAddr),
    /// This many attempts have been made, another one follows.
    Again(usize),
    /// No more attempts are made.
    GiveUp,
}

/// Decides how a search for a place for a mapping goes on after a number of attempts, given the start
/// of a free range: with that range, with another attempt or not at all.
///
/// A mapping that reaches the last page of the lower half would have no end in that half.
pub fn placement(addr: VirtAddr, size: u64, attempts: usize) -> (res: Attempt)
    requires
        addr@ < LOWER_HALF_END,
        size < LOWER_HALF_END,
        attempts < MAX_ATTEMPTS,
    ensures
        res is Found <==> addr@ + size <= LOWER_HALF_LAST_PAGE,
        match res {
            Attempt::Found(found) => found == addr,
            Attempt::Again(made) => made == attempts + 1 && made < MAX_ATTEMPTS,
            Attempt::GiveUp => attempts + 1 == MAX_ATTEMPTS,
        },
{
    if addr.as_u64() + size <= LOWER_HALF_LAST_PAGE {
        Attempt::Found(addr)
    } else if attempts + 1 < MAX_ATTEMPTS {
        Attempt::Again(attempts + 1)
    } else {
        Attempt::GiveUp
    }
}

/// A random number. `None` if the processor can't provide one.
///
/// This is `x86_64::instructions::random::RdRand::get_u64`. Nothing is known about the number.
#[verifier::external_body]
fn random_u64() -> (res: Option<u64>) {
    match x86_64::instructions::random::RdRand::new() {
        Some(rdrand) => rdrand.get_u64(),
        None => None,
    }
}

impl VirtualMemoryState {
    /// Turns a random number into the start of a range if the range is free.
    pub fn candidate_address(&self, random: u64, size: u64) -> (res: Option<VirtAddr>)
        requires
            self.wf(),
            size < LOWER_HALF_END,
        ensures
            res is Some <==> is_free(self@, candidate(random) as int, size as int),
            res matches Some(addr) ==> addr@ == candidate(random) && addr.wf(),
    {
        proof {
            addr::lemma_page_size_is_power_of_two();
            assert(random & 0x7fff_ffff_ffffu64 == random % 0x8000_0000_0000u64) by (bit_vector);
        }
        let start: u64 = random & 0x7fff_ffff_ffff;
        let start: u64 = addr::align_down(start, PAGE_SIZE);
        let addr: VirtAddr = VirtAddr::new(start);
        let mut i: usize = 0;
        while i < self.mappings.len()
            invariant
                self.wf(),
                addr@ == start,
                start == candidate(random),
                addr@ % PAGE_SIZE == 0,
                size < LOWER_HALF_END,
                i <= self.mappings@.len(),
                forall|j: int|
                    0 <= j < i ==> size == 0 || (#[trigger] self.mappings@[j]).end_address()
                        <= start || extended(start + size - 1) < self.mappings@[j].start@,
            decreases self.mappings@.len() - i,
        {
            assert(self.mappings@[i as int].wf());
            if self.mappings[i].contains_range(addr, size) {
                proof {
                    let mapping = self.mappings@[i as int];
                    let page = if mapping.start@ < start {
                        start
                    } else {
                        mapping.start@
                    };
                    lemma_owner(self.mappings@, i as int, page);
                    assert(self@.contains_key(page));
                }
                return None;
            }
            i = i + 1;
        }
        assert forall|page: u64| #[trigger] self@.contains_key(page) implies size == 0 || page
            + PAGE_SIZE <= start || extended(start + size - 1) < page by {
            let j = owner(self.mappings@, page);
            assert(self.mappings@[j].covers(page as int));
            assert(self.mappings@[j].wf());
        }
        Some(addr)
    }

    /// Decides how a search for a free range goes on after a number of attempts: with the range that
    /// a random number stands for, with another attempt or not at all.
    pub fn attempt(&self, attempts: usize, random: Option<u64>, size: u64) -> (res: Attempt)
        requires
            self.wf(),
            size < LOWER_HALF_END,
            attempts < MAX_ATTEMPTS,
        ensures
            match res {
                Attempt::Found(addr) => {
                    &&& is_acceptable(self@, random, size as int)
                    &&& addr.wf()
                    &&& addr@ == candidate(random->0)
                },
                Attempt::Again(made) => {
                    &&& !is_acceptable(self@, random, size as int)
                    &&& made == attempts + 1
                    &&& made < MAX_ATTEMPTS
                },
                Attempt::GiveUp => {
                    &&& !is_acceptable(self@, random, size as int)
                    &&& attempts + 1 == MAX_ATTEMPTS
                },
            },
    {
        if let Some(random) = random {
            if let Some(addr) = self.candidate_address(random, size) {
                return Attempt::Found(addr);
            }
        }
        if attempts + 1 < MAX_ATTEMPTS {
            Attempt::Again(attempts + 1)
        } else {
            Attempt::GiveUp
        }
    }

    /// Searches for the start of a free range in the lower half. `None` if none has been found
    /// after a number of attempts.
    ///
    /// Each attempt uses a new random number, so no range is sure to be found.
    pub fn find_free_address(&self, size: u64) -> (res: Option<VirtAddr>)
        requires
            self.wf(),
            size < LOWER_HALF_END,
        ensures
            res matches Some(addr) ==> {
                &&& addr.wf()
                &&& addr@ % PAGE_SIZE == 0
                &&& addr@ < LOWER_HALF_END
                &&& is_free(self@, addr@ as int, size as int)
            },
    {
        let mut attempts: usize = 0;
        loop
            invariant
                self.wf(),
                size < LOWER_HALF_END,
                attempts < MAX_ATTEMPTS,
            decreases MAX_ATTEMPTS - attempts,
        {
            match self.attempt(attempts, random_u64(), size) {
                Attempt::Found(addr) => {
                    return Some(addr);
                },
                Attempt::Again(made) => {
                    attempts = made;
                },
                Attempt::GiveUp => {
                    return None;
                },
            }
        }
    }
}

impl VirtualMemoryState {
    /// If nothing is mapped, there are no mappings.
    proof fn lemma_nothing_mapped(self)
        requires
            self.wf(),
        ensures
            nothing_mapped(self@) <==> self.mappings@.len() == 0,
    {
        if self.mappings@.len() > 0 {
            let page = self.mappings@[0].start@;
            assert(self.mappings@[0].wf());
            lemma_owner(self.mappings@, 0, page);
            assert(self@.contains_key(page));
        }
    }
}

impl Clone for VirtualMemoryState {
    fn clone(&self) -> (res: Self)
        ensures
            res.mappings@ == self.mappings@,
    {
        let mut mappings: Vec<Mapping> = Vec::new();
        let mut i: usize = 0;
        while i < self.mappings.len()
            invariant
                i <= self.mappings@.len(),
                mappings@ == self.mappings@.take(i as int),
            decreases self.mappings@.len() - i,
        {
            mappings.push(self.mappings[i].clone());
            i = i + 1;
            assert(mappings@ =~= self.mappings@.take(i as int));
        }
        assert(mappings@ =~= self.mappings@);
        VirtualMemoryState { mappings }
    }
}

} // verus!
