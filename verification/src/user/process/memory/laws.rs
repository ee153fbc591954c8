//! What holds of the virtual memory as a whole.
use vstd::prelude::*;

use crate::addr::{self, VirtAddr, PAGE_SIZE};
use crate::error::Error;
use crate::user::process::memory::mapping::{
    self, Backing, Mapping, MemoryPermissions, PageInfo, Source,
};
use crate::user::process::memory::request::{self, Request};
use crate::user::process::memory::state::{self, Memory};
use crate::user::process::memory;

verus! {

/// If memory can be accessed up to the end of a range, all pages of the range can be accessed.
proof fn lemma_reach_all(memory: Memory, write: bool, page: int, end: int, at: int)
    requires
        page % PAGE_SIZE as int == 0,
        at % PAGE_SIZE as int == 0,
        page <= at < end,
        memory.reach(write, page, end) == end,
    ensures
        if write {
            memory.writable(at)
        } else {
            memory.readable(at)
        },
    decreases end - page,
{
    if page < at {
        lemma_reach_all(memory, write, page + PAGE_SIZE, end, at);
    }
}

/// If all pages of a range can be read, memory can be read up to the end of the range.
proof fn lemma_all_reach(memory: Memory, page: int, end: int)
    requires
        page % PAGE_SIZE as int == 0,
        forall|at: int|
            page <= at < end && at % PAGE_SIZE as int == 0 ==> #[trigger] memory.readable(at),
    ensures
        memory.reach(false, page, end) == end,
    decreases
            (if page < end {
                end - page
            } else {
                0
            }),
{
    if page < end {
        assert(memory.readable(page));
        lemma_all_reach(memory, page + PAGE_SIZE, end);
    }
}

/// What has been written is read back.
pub proof fn law_read_after_write(
    memory: Memory,
    address: int,
    bytes: Seq<u8>,
    written: Memory,
    buf: Seq<u8>,
    read: Memory,
    res_buf: Seq<u8>,
    res: Result<(), Error>,
)
    requires
        memory.consistent(),
        0 <= address,
        address + bytes.len() <= u64::MAX + 1,
        memory::write_result(memory, address, bytes, written, Ok(())),
        buf.len() == bytes.len(),
        memory::read_result(written, address, buf, read, res_buf, res),
    ensures
        res == Ok::<(), Error>(()),
        res_buf == bytes,
{
    reveal(Memory::consistent);
    if bytes.len() > 0 {
        let first = memory::page_start(address);
        let end = address + bytes.len();
        assert forall|at: int| first <= at < end && at % PAGE_SIZE as int
            == 0 implies #[trigger] written.readable(at) by {
            lemma_reach_all(memory, true, first, end, at);
        }
        lemma_all_reach(written, first, end);
        assert forall|i: int| 0 <= i < bytes.len() implies #[trigger] res_buf[i] == bytes[i] by {
            let page = memory::page_start(address + i);
            lemma_reach_all(memory, true, first, end, page);
            assert(memory.pages.contains_key(page as u64));
            assert(addr::is_page(page as u64));
            assert(written.table.contains_key(page as u64));
        }
        assert(res_buf =~= bytes);
    }
}

/// Writing doesn't affect memory outside of the range.
pub proof fn law_write_keeps_other_memory(
    memory: Memory,
    address: int,
    bytes: Seq<u8>,
    written: Memory,
    res: Result<(), Error>,
    other: int,
)
    requires
        memory.consistent(),
        0 <= address,
        memory::write_result(memory, address, bytes, written, res),
        0 <= other <= u64::MAX,
        other < address || address + bytes.len() <= other,
        memory.pages.contains_key(memory::page_start(other) as u64),
    ensures
        written.byte(other) == memory.byte(other),
        written.pages == memory.pages,
{
    reveal(Memory::consistent);
    let page = memory::page_start(other) as u64;
    assert(memory.pages.contains_key(page));
    assert(memory.entry(page).bytes.len() == PAGE_SIZE);
    let first = memory::page_start(address);
    let end = address + bytes.len();
    memory.lemma_reach(true, first, end);
    if bytes.len() > 0 && first <= page < memory.reach(true, first, end) {
        let part = memory::part(page as int, address, bytes);
        let offset = memory::part_offset(page as int, address);
        assert(!(offset <= other - page < offset + part.len()));
    }
}

/// Reading doesn't affect memory.
pub proof fn law_read_keeps_memory(
    memory: Memory,
    address: int,
    buf: Seq<u8>,
    read: Memory,
    res_buf: Seq<u8>,
    res: Result<(), Error>,
    other: int,
)
    requires
        memory::read_result(memory, address, buf, read, res_buf, res),
    ensures
        read.byte(other) == memory.byte(other),
        read.pages == memory.pages,
{
}

/// Unmapped memory can't be accessed, and all other pages keep their content and permissions.
pub proof fn law_unmapped_memory_faults(memory: Memory, address: int, len: int, page: u64)
    requires
        memory.consistent(),
        addr::is_page(page),
    ensures
        state::unmap_start(address) <= page < state::unmap_end(address, len) ==> !memory.without(
            address,
            len,
        ).pages.contains_key(page) && !memory.without(address, len).table.contains_key(page),
        !(state::unmap_start(address) <= page < state::unmap_end(address, len)) ==> {
            let new = memory.without(address, len);
            &&& new.pages.contains_key(page) == memory.pages.contains_key(page)
            &&& memory.pages.contains_key(page) ==> {
                &&& new.pages[page].permissions == memory.pages[page].permissions
                &&& new.entry(page).bytes == memory.entry(page).bytes
            }
        },
{
    reveal(Memory::consistent);
    reveal(Memory::without);
    if memory.table.contains_key(page) {
        assert(memory.pages.contains_key(page));
    }
}

/// A deep copy has the same content and permissions.
pub proof fn law_clone_is_deep_copy(memory: Memory, address: int)
    requires
        memory.consistent(),
    ensures
        memory.cloned().pages == memory.pages,
        memory.pages.contains_key(memory::page_start(address) as u64) ==> memory.cloned().byte(
            address,
        ) == memory.byte(address),
{
    reveal(Memory::consistent);
    let page = memory::page_start(address) as u64;
    assert(memory.table.contains_key(page) ==> memory.pages.contains_key(page));
}

/// Changing the protection of a range replaces the permissions of the first mapping in the range,
/// from the start of the range on, and keeps those of all other pages. What has been revoked is also
/// revoked in the page table. The content of all pages is kept.
pub proof fn law_protect_revokes(
    memory: Memory,
    start: int,
    end: int,
    permissions: MemoryPermissions,
    new: Memory,
    first: u64,
    page: u64,
)
    requires
        memory.consistent(),
        state::protect_result(memory, start, end, permissions, new),
        state::is_first_mapped(memory.pages, start, end, first),
        memory.pages.contains_key(page),
    ensures
        new.pages.contains_key(page),
        ({
            let info = memory.pages[first];
            if start <= page && info.start <= page < state::protect_end(info, start, end) {
                &&& new.pages[page].permissions == permissions
                &&& new.readable(page as int) == permissions.read
                &&& new.writable(page as int) == (permissions.read && permissions.write)
                &&& new.table.contains_key(page) && info.permissions.write && !permissions.write
                    ==> !new.table[page].flags.writable
                &&& new.table.contains_key(page) && info.permissions.execute
                    && !permissions.execute ==> !new.table[page].flags.executable
            } else {
                &&& new.pages[page].permissions == memory.pages[page].permissions
                &&& new.table.contains_key(page) == memory.table.contains_key(page)
                &&& new.table.contains_key(page) ==> new.table[page] == memory.table[page]
            }
        }),
        forall|address: int| #[trigger]
            memory.pages.contains_key(memory::page_start(address) as u64) ==> new.byte(address)
                == memory.byte(address),
{
    reveal(Memory::consistent);
    let info = memory.pages[first];
    assert(info.start <= page < info.end ==> state::same_mapping(
        memory.pages[first],
        memory.pages[page],
    ));
}

/// The initial content of memory at an offset.
pub open spec fn content(backing: Backing, offset: int) -> u8 {
    match backing {
        Backing::File(file) => if file.offset + offset < file.bytes@.len() {
            file.bytes@[file.offset + offset]
        } else {
            0
        },
        Backing::Zero => 0,
        Backing::Stack => 0,
    }
}

/// The whole pages of a mapping start out with the content of its backing.
proof fn lemma_inner_content(memory: Memory, wanted: Request, address: int)
    requires
        memory.consistent(),
        wanted.valid(memory),
        wanted.ok(memory),
        wanted.inner_start() <= address < wanted.inner_end(),
    ensures
        wanted.added(memory).byte(address) == content(wanted.backing, address - wanted.address),
        wanted.added(memory).pages[memory::page_start(address) as u64].permissions
            == wanted.permissions,
{
    reveal(Memory::consistent);
    reveal(Memory::without);
    reveal(Memory::bordered);
    reveal(Request::added);
    let page = memory::page_start(address) as u64;
    let m1 = memory.without(wanted.address, wanted.len);
    let m3 = wanted.after_tail(memory);
    let m4 = wanted.added(memory);
    assert(wanted.inner_start() <= page < wanted.inner_end());
    assert(state::unmap_end(wanted.address, wanted.len) == wanted.inner_end());
    assert(!m1.table.contains_key(page)) by {
        if memory.table.contains_key(page) {
            assert(memory.pages.contains_key(page));
        }
    }
    assert(!m3.table.contains_key(page));
    assert(m4.pages[page].source == wanted.backing.source(page - wanted.address));
    assert(m4.byte(address) == m4.pages[page].source.initial()[address - page]);
}

/// Bytes that have been placed in a part of a page.
proof fn lemma_border_content(
    memory: Memory,
    page: u64,
    permissions: MemoryPermissions,
    offset: int,
    bytes: Seq<u8>,
    i: int,
)
    requires
        memory.table.contains_key(page) ==> memory.table[page].bytes.len() == PAGE_SIZE,
        memory.can_border(page, permissions),
        0 <= offset,
        offset + bytes.len() <= PAGE_SIZE,
        0 <= i < bytes.len(),
    ensures
        memory.bordered(page, permissions, offset, bytes).table.contains_key(page),
        memory.bordered(page, permissions, offset, bytes).table[page].bytes[offset + i] == bytes[i],
        forall|other: u64|
            other != page ==> #[trigger] memory.bordered(page, permissions, offset, bytes).table[other]
                == memory.table[other] && memory.bordered(
                page,
                permissions,
                offset,
                bytes,
            ).table.contains_key(other) == memory.table.contains_key(other),
{
    reveal(Memory::bordered);
    let info = memory.border_info(page, permissions);
    let entry = mapping::entry_or_filled(memory.table, info, page);
    assert(entry.bytes.len() == PAGE_SIZE);
}

/// Making space for a mapping keeps the mappings and the page table in agreement.
proof fn lemma_entry_sizes(memory: Memory, address: int, len: int)
    requires
        memory.consistent(),
    ensures
        forall|page: u64| #[trigger]
            memory.without(address, len).table.contains_key(page) ==> memory.without(
                address,
                len,
            ).table[page].bytes.len() == PAGE_SIZE,
{
    reveal(Memory::consistent);
    reveal(Memory::without);
}

/// Memory that has been mapped starts out with the content of its backing, whether the ends of the
/// mapping are aligned or not.
pub proof fn law_mapped_content(memory: Memory, wanted: Request, offset: int)
    requires
        memory.consistent(),
        wanted.valid(memory),
        wanted.ok(memory),
        0 <= offset < wanted.len,
    ensures
        wanted.added(memory).byte(wanted.address + offset) == content(wanted.backing, offset),
        wanted.inner_start() <= wanted.address + offset < wanted.inner_end() ==> wanted.added(
            memory,
        ).pages[memory::page_start(wanted.address + offset) as u64].permissions
            == wanted.permissions,
{
    let address = wanted.address + offset;
    let page = memory::page_start(address) as u64;
    if wanted.inner_start() <= address < wanted.inner_end() {
        lemma_inner_content(memory, wanted, address);
    } else {
        lemma_end_content(memory, wanted, offset);
    }
}

/// The pages that a mapping only contains a part of start out with the content of its backing.
proof fn lemma_end_content(memory: Memory, wanted: Request, offset: int)
    requires
        memory.consistent(),
        wanted.valid(memory),
        wanted.ok(memory),
        0 <= offset < wanted.len,
        !(wanted.inner_start() <= wanted.address + offset < wanted.inner_end()),
    ensures
        wanted.added(memory).byte(wanted.address + offset) == content(wanted.backing, offset),
{
    let page = memory::page_start(wanted.address + offset) as u64;
    assert(wanted.added(memory).table == wanted.after_tail(memory).table) by {
        reveal(Request::added);
    }
    if wanted.has_head() && page == wanted.head_page() {
        lemma_head_content(memory, wanted, offset);
    } else {
        lemma_tail_content(memory, wanted, offset);
    }
}

/// The content of the page that a mapping starts in the middle of.
proof fn lemma_head_content(memory: Memory, wanted: Request, offset: int)
    requires
        memory.consistent(),
        wanted.valid(memory),
        wanted.ok(memory),
        0 <= offset < wanted.len,
        wanted.has_head(),
        memory::page_start(wanted.address + offset) == memory::page_start(wanted.address),
    ensures
        wanted.after_tail(memory).table.contains_key(wanted.head_page()),
        wanted.after_tail(memory).table[wanted.head_page()].bytes[(wanted.address + offset)
            % PAGE_SIZE as int] == content(wanted.backing, offset),
{
    lemma_entry_sizes(memory, wanted.address, wanted.len);
    let page = wanted.head_page();
    let m1 = memory.without(wanted.address, wanted.len);
    let m2 = wanted.after_head(memory);
    let bytes = wanted.backing.initial_memory(0, wanted.head_len());
    let at = wanted.address % PAGE_SIZE as int;
    assert(offset < wanted.head_len());
    assert(bytes.len() == wanted.head_len());
    assert(bytes[offset] == content(wanted.backing, offset));
    lemma_border_content(m1, page, wanted.permissions, at, bytes, offset);
    assert(m2.table[page].bytes[at + offset] == bytes[offset]);
    assert((wanted.address + offset) % PAGE_SIZE as int == at + offset);
    if wanted.has_tail() {
        let from = wanted.len - wanted.tail_len();
        let tail = wanted.backing.initial_memory(from, wanted.tail_len());
        assert(wanted.tail_page() != page);
        lemma_border_content_size(m1, page, wanted.permissions, at, bytes);
        lemma_border_content(m2, wanted.tail_page(), wanted.permissions, 0, tail, 0);
        assert(wanted.after_tail(memory).table[page] == m2.table[page]);
    }
}

/// A byte of a mapping that is neither in its whole pages nor in the page that it starts in the middle of
/// is in the page that it ends in the middle of.
proof fn lemma_in_tail(wanted: Request, offset: int)
    requires
        mapping::is_range(wanted.address, wanted.len),
        0 <= offset < wanted.len,
        !(wanted.inner_start() <= wanted.address + offset < wanted.inner_end()),
        !(wanted.has_head() && memory::page_start(wanted.address + offset) == memory::page_start(
            wanted.address,
        )),
    ensures
        wanted.has_tail(),
        memory::page_start(wanted.address + offset) as u64 == wanted.tail_page(),
        0 <= wanted.len - wanted.tail_len() <= offset,
        (wanted.address + offset) % PAGE_SIZE as int == offset - (wanted.len - wanted.tail_len()),
{
}

/// The content of the page that a mapping ends in the middle of.
proof fn lemma_tail_content(memory: Memory, wanted: Request, offset: int)
    requires
        memory.consistent(),
        wanted.valid(memory),
        wanted.ok(memory),
        0 <= offset < wanted.len,
        !(wanted.inner_start() <= wanted.address + offset < wanted.inner_end()),
        !(wanted.has_head() && memory::page_start(wanted.address + offset) == memory::page_start(
            wanted.address,
        )),
    ensures
        ({
            let page = memory::page_start(wanted.address + offset) as u64;
            &&& wanted.after_tail(memory).table.contains_key(page)
            &&& wanted.after_tail(memory).table[page].bytes[(wanted.address + offset)
                % PAGE_SIZE as int] == content(wanted.backing, offset)
        }),
{
    lemma_entry_sizes(memory, wanted.address, wanted.len);
    lemma_in_tail(wanted, offset);
    let page = memory::page_start(wanted.address + offset) as u64;
    let m1 = memory.without(wanted.address, wanted.len);
    let m2 = wanted.after_head(memory);
    let from = wanted.len - wanted.tail_len();
    let bytes = wanted.backing.initial_memory(from, wanted.tail_len());
    assert(bytes.len() == wanted.tail_len());
    assert(bytes[offset - from] == content(wanted.backing, offset));
    if wanted.has_head() {
        let head = wanted.backing.initial_memory(0, wanted.head_len());
        let at = wanted.address % PAGE_SIZE as int;
        lemma_border_content_size(m1, wanted.head_page(), wanted.permissions, at, head);
    }
    lemma_border_content(m2, page, wanted.permissions, 0, bytes, offset - from);
}

/// Placing bytes in a part of a page keeps the size of all pages.
proof fn lemma_border_content_size(
    memory: Memory,
    page: u64,
    permissions: MemoryPermissions,
    offset: int,
    bytes: Seq<u8>,
)
    requires
        forall|q: u64| #[trigger]
            memory.table.contains_key(q) ==> memory.table[q].bytes.len() == PAGE_SIZE,
    ensures
        forall|q: u64| #[trigger]
            memory.bordered(page, permissions, offset, bytes).table.contains_key(q)
                ==> memory.bordered(page, permissions, offset, bytes).table[q].bytes.len()
                == PAGE_SIZE,
{
    reveal(Memory::bordered);
    let info = memory.border_info(page, permissions);
    assert(mapping::entry_or_filled(memory.table, info, page).bytes.len() == PAGE_SIZE);
}

/// Placing bytes in a part of a page doesn't affect other memory.
proof fn lemma_border_keeps(
    memory: Memory,
    page: u64,
    permissions: MemoryPermissions,
    offset: int,
    bytes: Seq<u8>,
    other: int,
)
    requires
        forall|page: u64| #[trigger]
            memory.table.contains_key(page) ==> memory.table[page].bytes.len() == PAGE_SIZE,
        memory.pages.contains_key(memory::page_start(other) as u64),
        0 <= other <= u64::MAX,
        0 <= offset,
        page % PAGE_SIZE == 0,
        !(page + offset <= other < page + offset + bytes.len()),
    ensures
        memory.bordered(page, permissions, offset, bytes).byte(other) == memory.byte(other),
        memory.bordered(page, permissions, offset, bytes).pages.contains_key(
            memory::page_start(other) as u64,
        ),
        forall|q: u64| #[trigger]
            memory.bordered(page, permissions, offset, bytes).table.contains_key(q)
                ==> memory.bordered(page, permissions, offset, bytes).table[q].bytes.len()
                == PAGE_SIZE,
{
    reveal(Memory::bordered);
    let at = memory::page_start(other) as u64;
    let new = memory.bordered(page, permissions, offset, bytes);
    assert(memory.entry(at).bytes.len() == PAGE_SIZE);
    assert(new.pages[at].source == memory.pages[at].source);
    let info = memory.border_info(page, permissions);
    let entry = mapping::entry_or_filled(memory.table, info, page);
    assert(entry.bytes.len() == PAGE_SIZE);
    if at == page {
        assert(entry.bytes == memory.entry(at).bytes);
    }
}

/// Adding a mapping doesn't affect the content of memory outside of its range.
pub proof fn law_mapping_keeps_other_memory(memory: Memory, wanted: Request, other: int)
    requires
        memory.consistent(),
        wanted.valid(memory),
        0 <= other <= u64::MAX,
        other < wanted.address || wanted.end() <= other,
        memory.pages.contains_key(memory::page_start(other) as u64),
    ensures
        wanted.added(memory).byte(other) == memory.byte(other),
        wanted.added(memory).pages.contains_key(memory::page_start(other) as u64),
{
    let page = memory::page_start(other) as u64;
    lemma_entry_sizes(memory, wanted.address, wanted.len);
    assert(addr::is_page(page)) by {
        reveal(Memory::consistent);
    }
    assert(!(wanted.inner_start() <= page < wanted.inner_end()));
    law_unmapped_memory_faults(memory, wanted.address, wanted.len, page);
    let m1 = memory.without(wanted.address, wanted.len);
    let m2 = wanted.after_head(memory);
    let m3 = wanted.after_tail(memory);
    if wanted.has_head() {
        let bytes = wanted.backing.initial_memory(0, wanted.head_len());
        let at = wanted.address % PAGE_SIZE as int;
        lemma_border_keeps(m1, wanted.head_page(), wanted.permissions, at, bytes, other);
    }
    assert(m2.byte(other) == memory.byte(other));
    if wanted.has_tail() && wanted.head_ok(memory) {
        let from = wanted.len - wanted.tail_len();
        let bytes = wanted.backing.initial_memory(from, wanted.tail_len());
        lemma_border_keeps(m2, wanted.tail_page(), wanted.permissions, 0, bytes, other);
    }
    assert(wanted.head_ok(memory) ==> m3.byte(other) == memory.byte(other));
    reveal(Request::added);
}

/// Unmapping a range that doesn't contain memory changes nothing.
proof fn lemma_unmap_free(memory: Memory, address: int, len: int)
    requires
        memory.consistent(),
        address % PAGE_SIZE as int == 0,
        len % PAGE_SIZE as int == 0,
        mapping::is_range(address, len),
        state::is_free(memory.pages, address, len),
    ensures
        memory.without(address, len) == memory,
{
    reveal(Memory::consistent);
    reveal(Memory::without);
    let new = memory.without(address, len);
    if len > 0 {
        assert forall|page: u64| #[trigger] memory.pages.contains_key(page) implies state::clipped(
            memory.pages[page],
            page as int,
            address,
            address + len,
        ) == memory.pages[page] by {
            lemma_free_apart(memory, address, len, page);
        }
        assert(new.pages =~= memory.pages);
        assert(new.table =~= memory.table);
    }
}

/// A mapping without memory in a range is on one side of the range.
proof fn lemma_free_apart(memory: Memory, address: int, len: int, page: u64)
    requires
        memory.consistent(),
        address % PAGE_SIZE as int == 0,
        len % PAGE_SIZE as int == 0,
        0 < len,
        mapping::is_range(address, len),
        state::is_free(memory.pages, address, len),
        memory.pages.contains_key(page),
    ensures
        memory.pages[page].end <= address || address + len <= memory.pages[page].start,
        page < address || address + len <= page,
{
    let info = memory.pages[page];
    let last = (address + len - PAGE_SIZE) as u64;
    assert(state::extended(address + len - 1) == address + len - 1);
    assert(page + PAGE_SIZE <= address || address + len - 1 < page);
    assert(addr::is_page(address as u64) && addr::is_page(last));
    lemma_mapping_is_contiguous(memory, page, address as u64);
    lemma_mapping_is_contiguous(memory, page, last);
    if page < address && info.end > address {
        assert(memory.pages.contains_key(address as u64));
    }
    if page >= address + len && info.start < address + len {
        assert(memory.pages.contains_key(last));
    }
}

/// All pages between the start and the end of a mapping are mapped.
proof fn lemma_mapping_is_contiguous(memory: Memory, page: u64, other: u64)
    requires
        memory.consistent(),
        memory.pages.contains_key(page),
        addr::is_page(other),
    ensures
        memory.pages[page].start <= page < memory.pages[page].end,
        memory.pages[page].start % PAGE_SIZE as int == 0,
        memory.pages[page].end % PAGE_SIZE as int == 0,
        memory.pages[page].start <= other < memory.pages[page].end ==> memory.pages.contains_key(
            other,
        ),
{
    reveal(Memory::consistent);
    assert(memory.pages[page].start <= other < memory.pages[page].end ==> state::same_mapping(
        memory.pages[page],
        memory.pages[other],
    ));
}

/// Unmapping whole pages that have been mapped where there was nothing restores the memory.
pub proof fn law_unmap_undoes_map(memory: Memory, wanted: Request)
    requires
        memory.consistent(),
        wanted.valid(memory),
        wanted.address % PAGE_SIZE as int == 0,
        wanted.len % PAGE_SIZE as int == 0,
        state::is_free(memory.pages, wanted.address, wanted.len),
    ensures
        wanted.added(memory).without(wanted.address, wanted.len) == memory,
{
    lemma_unmap_free(memory, wanted.address, wanted.len);
    let added = wanted.added(memory);
    let restored = added.without(wanted.address, wanted.len);
    let end = wanted.address + wanted.len;
    reveal(Request::added);
    reveal(Memory::without);
    assert(added.table == memory.table);
    assert(wanted.inner_start() == wanted.address && wanted.inner_end() == end);
    if wanted.len > 0 {
        assert forall|page: u64| #[trigger] memory.pages.contains_key(page) implies !(wanted.address
            <= page < end) && state::clipped(
            memory.pages[page],
            page as int,
            wanted.address,
            end,
        ) == memory.pages[page] by {
            lemma_free_apart(memory, wanted.address, wanted.len, page);
        }
        assert(restored.pages =~= memory.pages);
        assert forall|page: u64| #[trigger] memory.table.contains_key(
            page,
        ) implies memory.pages.contains_key(page) by {
            reveal(Memory::consistent);
        }
        assert(restored.table =~= memory.table);
    } else {
        assert(restored.pages =~= memory.pages);
    }
}

/// Unmapping takes away exactly the pages that are completely in the range. All other pages keep
/// their permissions, their content and their place in the page table. A mapping that reaches into the
/// range ends or starts there.
pub proof fn law_whole_pages_are_unmapped(memory: Memory, address: int, len: int, page: u64)
    requires
        memory.consistent(),
        0 <= len,
        (0 <= address && address + len < 0x8000_0000_0000) || (0xffff_8000_0000_0000 <= address
            && address + len <= u64::MAX),
        page % 4096 == 0,
    ensures
        ({
            let new = memory.without(address, len);
            if address <= page && page + 4096 <= address + len {
                &&& !new.pages.contains_key(page)
                &&& !new.table.contains_key(page)
            } else {
                &&& new.pages.contains_key(page) == memory.pages.contains_key(page)
                &&& new.table.contains_key(page) == memory.table.contains_key(page)
                &&& memory.table.contains_key(page) ==> new.table[page] == memory.table[page]
                &&& memory.pages.contains_key(page) ==> {
                    &&& new.pages[page].permissions == memory.pages[page].permissions
                    &&& new.pages[page].source == memory.pages[page].source
                }
            }
        }),
{
    reveal(Memory::without);
    reveal(Memory::consistent);
    if memory.table.contains_key(page) {
        assert(memory.pages.contains_key(page));
    }
}

/// Changing the protection of a range of pages affects the mapping that contains the first mapped page
/// of the range: its pages in the range get the permissions, and if it starts before the range, its
/// pages behind the range get them as well. Writing and executing are taken away in the page table
/// if the mapping had those permissions and hasn't any more. Nothing else changes.
pub proof fn law_protected_pages(
    memory: Memory,
    address: int,
    len: int,
    permissions: MemoryPermissions,
    new: Memory,
    first: u64,
    page: u64,
)
    requires
        memory.consistent(),
        len > 0,
        address % 4096 == 0,
        len % 4096 == 0,
        (0 <= address && address + len <= 0x8000_0000_0000) || (0xffff_8000_0000_0000 <= address
            && address + len <= u64::MAX + 1),
        state::protect_result(
            memory,
            address,
            state::range_end(address, len),
            permissions,
            new,
        ),
        memory.pages.contains_key(first),
        address <= first < address + len,
        forall|q: u64| #[trigger]
            memory.pages.contains_key(q) && address <= q < address + len ==> first <= q,
    ensures
        new.pages.contains_key(page) == memory.pages.contains_key(page),
        new.table.contains_key(page) == memory.table.contains_key(page),
        memory.pages.contains_key(page) ==> new.pages[page].source == memory.pages[page].source,
        ({
            let info = memory.pages[first];
            let from = if info.start < address {
                address
            } else {
                info.start
            };
            let to = if info.end < address + len {
                info.end
            } else {
                address + len
            };
            memory.pages.contains_key(page) ==> if info.start <= page < info.end {
                &&& page < from ==> new.pages[page].start == info.start && new.pages[page].end
                    == from
                &&& from <= page < to ==> new.pages[page].start == from && new.pages[page].end == to
                &&& to <= page ==> new.pages[page].start == to && new.pages[page].end == info.end
            } else {
                new.pages[page] == memory.pages[page]
            }
        }),
        ({
            let info = memory.pages[first];
            let before = memory.table[page];
            let after = new.table[page];
            if address <= page && info.start <= page < info.end && (page < address + len
                || info.start < address) {
                &&& memory.pages.contains_key(page) ==> new.pages[page].permissions == permissions
                &&& memory.table.contains_key(page) ==> {
                    &&& after.bytes == before.bytes
                    &&& after.dirty == before.dirty
                    &&& after.flags.writable == (before.flags.writable && (permissions.write
                        || !info.permissions.write))
                    &&& after.flags.executable == (before.flags.executable && (permissions.execute
                        || !info.permissions.execute))
                    &&& after.flags.user == before.flags.user
                    &&& after.flags.cow == before.flags.cow
                    &&& after.flags.global == before.flags.global
                    &&& after.flags.local == before.flags.local
                }
            } else {
                &&& memory.pages.contains_key(page) ==> new.pages[page].permissions
                    == memory.pages[page].permissions
                &&& memory.table.contains_key(page) ==> after == before
            }
        }),
{
    reveal(Memory::consistent);
    let info = memory.pages[first];
    assert(state::is_first_mapped(
        memory.pages,
        address,
        state::range_end(address, len),
        first,
    ));
    if info.start <= page < info.end && memory.pages.contains_key(page) {
        assert(state::same_mapping(memory.pages[first], memory.pages[page]));
    }
    if memory.table.contains_key(page) {
        assert(memory.pages.contains_key(page));
    }
}

/// The protection of a range of pages can be changed if a page of the range is mapped.
pub proof fn law_protection_needs_memory(memory: Memory, address: int, len: int)
    requires
        len > 0,
        (0 <= address && address + len <= 0x8000_0000_0000) || (0xffff_8000_0000_0000 <= address
            && address + len <= u64::MAX + 1),
    ensures
        state::any_mapped(memory.pages, address, state::range_end(address, len)) <==> exists|
            page: u64,
        | #[trigger]
            memory.pages.contains_key(page) && address <= page < address + len,
        state::can_protect(memory.pages, address, len) || len < 4096,
{
}

/// Memory that has been mapped shows the file that it's backed by, from the offset of the mapping on,
/// and zeros past the end of the file. Without a file, it's zero.
pub proof fn law_mapping_shows_backing(memory: Memory, wanted: Request, offset: int)
    requires
        memory.consistent(),
        wanted.valid(memory),
        wanted.ok(memory),
        0 <= offset < wanted.len,
    ensures
        match wanted.backing {
            Backing::File(file) => wanted.added(memory).byte(wanted.address + offset)
                == if file.offset + offset < file.bytes@.len() {
                file.bytes@[file.offset + offset]
            } else {
                0
            },
            Backing::Zero => wanted.added(memory).byte(wanted.address + offset) == 0,
            Backing::Stack => wanted.added(memory).byte(wanted.address + offset) == 0,
        },
{
    law_mapped_content(memory, wanted, offset);
}

/// The pages that are completely in a mapping have its permissions and haven't been written to. Other
/// pages that the mapping has a part of have its permissions if they weren't mapped before. Pages
/// outside of the mapping stay mapped or unmapped.
pub proof fn law_mapped_permissions(memory: Memory, wanted: Request, page: u64)
    requires
        memory.consistent(),
        wanted.valid(memory),
        wanted.ok(memory),
        page % 4096 == 0,
    ensures
        ({
            let new = wanted.added(memory);
            let end = wanted.address + wanted.len;
            if wanted.address <= page && page + 4096 <= end {
                &&& new.pages.contains_key(page)
                &&& new.pages[page].permissions == wanted.permissions
                &&& new.pages[page].source is File == (wanted.backing is File)
                &&& new.pages[page].source is Stack == (wanted.backing is Stack)
                &&& new.pages[page].start <= page
                &&& page + 4096 <= new.pages[page].end
                &&& wanted.address <= new.pages[page].start < wanted.address + 4096
                &&& end - 4096 < new.pages[page].end <= end
                &&& !new.table.contains_key(page)
            } else if wanted.address < page + 4096 && page < end && wanted.len > 0 {
                &&& new.pages.contains_key(page)
                &&& new.table.contains_key(page)
                &&& new.table[page].dirty
                &&& !new.table[page].flags.cow
                &&& !memory.pages.contains_key(page) ==> {
                    &&& new.pages[page].permissions == wanted.permissions
                    &&& new.pages[page].source is Zero
                    &&& new.pages[page].start == page
                    &&& new.pages[page].end == page + 4096
                }
            } else {
                wanted.len > 0 ==> new.pages.contains_key(page) == memory.pages.contains_key(page)
            }
        }),
{
    reveal(Memory::consistent);
    reveal(Memory::without);
    reveal(Memory::bordered);
    reveal(Request::added);
    let m1 = memory.without(wanted.address, wanted.len);
    let m2 = wanted.after_head(memory);
    let m3 = wanted.after_tail(memory);
    law_whole_pages_are_unmapped(memory, wanted.address, wanted.len, page);
    let end = wanted.address + wanted.len;
    assert(wanted.inner_start() <= page < wanted.inner_end() <==> wanted.address <= page && page
        + 4096 <= end);
    if wanted.address < page + 4096 && page < end && wanted.len > 0 && !(wanted.address <= page
        && page + 4096 <= end) {
        assert((wanted.has_head() && page == wanted.head_page()) || (wanted.has_tail() && page
            == wanted.tail_page()));
        if memory.pages.contains_key(wanted.tail_page()) && !memory.pages.contains_key(page) {
            assert(addr::is_page(page));
            assert(state::same_mapping(memory.pages[wanted.tail_page()], memory.pages[page])
                || !(memory.pages[wanted.tail_page()].start <= page
                < memory.pages[wanted.tail_page()].end));
        }
    }
}

/// Adding a mapping succeeds if the mapping is readable or consists of whole pages.
pub proof fn law_mapping_succeeds(memory: Memory, wanted: Request)
    requires
        wanted.permissions.read || (wanted.address % 4096 == 0 && wanted.len % 4096 == 0),
    ensures
        wanted.ok(memory),
{
}

/// If no address is given, a mapping is placed at the start of a page in the lower half where nothing
/// was mapped. If there's no such place, nothing changes.
pub proof fn law_mapping_is_placed_in_free_memory(
    memory: Memory,
    len: u64,
    permissions: MemoryPermissions,
    backing: Backing,
    new: Memory,
    res: Result<VirtAddr, Error>,
    page: u64,
)
    requires
        len > 0,
        permissions.read || len % 4096 == 0,
        request::add_result(memory, None, len, permissions, backing, new, res),
        memory.pages.contains_key(page),
    ensures
        match res {
            Ok(addr) => {
                &&& addr@ % 4096 == 0
                &&& addr@ + len <= 0x7fff_ffff_f000
                &&& page + 4096 <= addr@ || addr@ + len <= page
                &&& new == request::request(addr, len, permissions, backing).added(memory)
            },
            Err(err) => err == Error::NoMem && new == memory,
        },
{
}

/// If an address is given, a mapping is placed there.
pub proof fn law_mapping_is_placed_at_address(
    memory: Memory,
    addr: VirtAddr,
    len: u64,
    permissions: MemoryPermissions,
    backing: Backing,
    new: Memory,
    res: Result<VirtAddr, Error>,
)
    requires
        permissions.read || (addr@ % 4096 == 0 && len % 4096 == 0),
        request::add_result(memory, Some(addr), len, permissions, backing, new, res),
    ensures
        res == Ok::<VirtAddr, Error>(addr),
        new == (Request {
            address: addr@ as int,
            len: len as int,
            permissions,
            backing,
        }).added(memory),
{
}

/// Overwriting a page that may be read replaces its content and marks it as written to. What may be
/// done with it, and all other pages, stay the same. If it may not be written to, it isn't writable
/// afterwards either.
pub proof fn law_forced_write(memory: Memory, page: u64, bytes: Seq<u8>, other: u64)
    requires
        memory.consistent(),
        bytes.len() == 4096,
        memory.pages.contains_key(page),
        memory.pages[page].permissions.read,
    ensures
        ({
            let permissions = memory.pages[page].permissions;
            let new = memory.force_written(page, bytes);
            let entry = new.table[page];
            &&& new.pages == memory.pages
            &&& new.table.contains_key(page)
            &&& entry.bytes == bytes
            &&& entry.dirty
            &&& !entry.flags.cow
            &&& entry.flags.writable == permissions.write
            &&& !permissions.write ==> !entry.flags.user
            &&& entry.flags.executable == if memory.table.contains_key(page) {
                memory.table[page].flags.executable
            } else {
                permissions.execute
            }
            &&& other != page ==> new.table.contains_key(other) == memory.table.contains_key(other)
            &&& other != page ==> new.table[other] == memory.table[other]
        }),
{
    reveal(Memory::consistent);
    let entry = memory.force_written(page, bytes).table[page];
    assert(entry.bytes =~= bytes);
}

/// Pages that aren't mapped can't be overwritten.
pub proof fn law_forced_write_needs_memory(memory: Memory, page: u64, bytes: Seq<u8>)
    requires
        !memory.pages.contains_key(page),
    ensures
        memory.force_written(page, bytes) == memory,
        !memory.readable(page as int),
{
}

/// A deep copy has copies of exactly the pages that have been written to. They are writable or
/// executable only if the mapping is, and nothing else uses their frames.
pub proof fn law_clone_copies_written_pages(memory: Memory, page: u64)
    ensures
        ({
            let copy = memory.cloned();
            &&& copy.pages == memory.pages
            &&& copy.table.contains_key(page) <==> memory.table.contains_key(page)
                && memory.table[page].dirty
            &&& copy.table.contains_key(page) ==> {
                &&& copy.table[page].bytes == memory.table[page].bytes
                &&& copy.table[page].dirty
                &&& !copy.table[page].flags.cow
                &&& copy.table[page].flags.writable == memory.pages[page].permissions.write
                &&& copy.table[page].flags.executable == memory.pages[page].permissions.execute
                &&& !copy.table[page].flags.global && !copy.table[page].flags.local
            }
        }),
{
}

/// Memory can be copied if and only if every page that has been written to may be read.
pub proof fn law_clone_needs_readable_pages(memory: Memory)
    ensures
        memory.dirty_readable() <==> !exists|page: u64| #[trigger]
            memory.table.contains_key(page) && memory.table[page].dirty
                && !memory.pages[page].permissions.read,
{
}

/// A range can be accessed if all its pages are present or don't belong to files.
pub proof fn law_access_is_possible(memory: Memory, write: bool, address: int, len: int)
    requires
        0 <= address,
        forall|page: u64|
            #![trigger memory.pages.contains_key(page)]
            memory.pages.contains_key(page) && address < page + 4096 && page < address + len
                ==> memory.table.contains_key(page) || memory.pages[page].source is Zero
                || memory.pages[page].source is Stack,
    ensures
        memory.can_access(write, address, len),
{
    let first = memory::page_start(address);
    memory.lemma_reach(write, first, address + len);
    assert forall|page: u64| #[trigger]
        memory.pages.contains_key(page) && first <= page < memory.reach(
            write,
            first,
            address + len,
        ) && memory.pages[page].permissions.read && !memory.table.contains_key(
            page,
        ) implies memory.pages[page].source.fillable() by {}
}

/// A random number stands for a page of the lower half: the page of its lower 47 bits.
pub proof fn law_random_page(random: u64)
    ensures
        ({
            let page = state::candidate(random);
            &&& page % 4096 == 0
            &&& page <= random % 0x8000_0000_0000 < page + 4096
        }),
{
}

/// A range is free if no mapped page has a byte in it.
pub proof fn law_free_range(memory: Memory, start: int, size: int)
    requires
        0 <= start,
        0 < size,
        start + size <= 0x8000_0000_0000,
    ensures
        state::is_free(memory.pages, start, size) <==> !exists|page: u64| #[trigger]
            memory.pages.contains_key(page) && page < start + size && start < page + 4096,
{
}

/// Where the content of a mapping comes from: a file from an offset on, or nowhere.
pub proof fn law_backing_of_pages(backing: Backing, at: int)
    ensures
        match backing {
            Backing::File(file) => match backing.source(at) {
                Source::File { bytes, base, offset } => bytes == file.bytes@ && base
                    == file.bytes.base() && offset == file.offset + at,
                _ => false,
            },
            Backing::Zero => backing.source(at) is Zero,
            Backing::Stack => backing.source(at) is Stack,
        },
{
}

/// The initial content of a part of a mapping is a part of the file, or zeros.
pub proof fn law_initial_content(backing: Backing, offset: int, len: int, i: int)
    requires
        0 <= offset,
        0 <= i < len,
        backing matches Backing::File(file) ==> file.offset + offset + len <= file.bytes@.len(),
    ensures
        backing.has_initial_memory(offset, len),
        backing.initial_memory(offset, len).len() == len,
        backing.initial_memory(offset, len)[i] == match backing {
            Backing::File(file) => file.bytes@[file.offset + offset + i],
            Backing::Zero => 0,
            Backing::Stack => 0,
        },
{
}

/// Sets of permissions are combined permission by permission, and attributes of the page table follow
/// from them.
pub proof fn law_permissions(a: MemoryPermissions, b: MemoryPermissions)
    ensures
        a.plus(b).read <==> a.read || b.read,
        a.plus(b).write <==> a.write || b.write,
        a.plus(b).execute <==> a.execute || b.execute,
        a.minus(b).read <==> a.read && !b.read,
        a.minus(b).write <==> a.write && !b.write,
        a.minus(b).execute <==> a.execute && !b.execute,
        mapping::flags_of(a).writable == a.write,
        mapping::flags_of(a).executable == a.execute,
        !mapping::flags_of(a).user && !mapping::flags_of(a).cow,
        !mapping::flags_of(a).global && !mapping::flags_of(a).local,
{
}

/// A page that may not be read can't be overwritten. Its mapping can be written to from then on.
pub proof fn law_forced_write_needs_readable_memory(
    memory: Memory,
    page: u64,
    bytes: Seq<u8>,
    other: u64,
)
    requires
        memory.consistent(),
        memory.pages.contains_key(page),
        !memory.pages[page].permissions.read,
        memory.pages.contains_key(other),
    ensures
        ({
            let new = memory.force_written(page, bytes);
            let info = memory.pages[page];
            &&& new.table == memory.table
            &&& new.pages.contains_key(other)
            &&& new.pages[other].source == memory.pages[other].source
            &&& info.start <= other < info.end ==> new.pages[other].permissions.write
                && !new.pages[other].permissions.read && new.pages[other].permissions.execute
                == info.permissions.execute
            &&& other < info.start || info.end <= other ==> new.pages[other].permissions
                == memory.pages[other].permissions
        }),
{
}

/// A mapping consists of consecutive pages with the same permissions. The content of each page comes from
/// its place in the backing.
pub proof fn law_pages_of_mappings(mappings: Seq<Mapping>, i: int, page: u64)
    requires
        state::mappings_wf(mappings),
        0 <= i < mappings.len(),
        addr::is_page(page),
        mappings[i].start@ <= page < mappings[i].start@ + mappings[i].num_pages * 4096,
    ensures
        ({
            let info = state::pages_of(mappings)[page];
            let mapping = mappings[i];
            &&& state::pages_of(mappings).contains_key(page)
            &&& info.permissions == mapping.permissions
            &&& info.start == mapping.start@
            &&& info.end == mapping.start@ + mapping.num_pages * 4096
            &&& match mapping.backing {
                Backing::File(file) => match info.source {
                    Source::File { bytes, base, offset } => bytes == file.bytes@ && base
                        == file.bytes.base() && offset == file.offset + (page - mapping.start@),
                    _ => false,
                },
                Backing::Zero => info.source is Zero,
                Backing::Stack => info.source is Stack,
            }
        }),
{
    assert(mappings[i].covers(page as int));
    state::lemma_owner(mappings, i, page);
}

/// A page that's in no mapping isn't mapped.
pub proof fn law_pages_outside_of_mappings(mappings: Seq<Mapping>, page: u64)
    requires
        forall|i: int|
            0 <= i < mappings.len() ==> page < (#[trigger] mappings[i]).start@ || mappings[i].start@
                + mappings[i].num_pages * 4096 <= page,
    ensures
        !state::pages_of(mappings).contains_key(page),
{
    if state::pages_of(mappings).contains_key(page) {
        let i = state::owner(mappings, page);
        assert(mappings[i].covers(page as int));
    }
}

/// A part of a page that is the last one of its mapping can be mapped. The page then has the permissions
/// of both mappings.
pub proof fn law_shared_page_permissions(memory: Memory, wanted: Request)
    requires
        memory.consistent(),
        wanted.valid(memory),
        wanted.ok(memory),
        wanted.len > 0,
        wanted.address % 4096 != 0,
        wanted.address - wanted.address % 4096 + 4096 >= wanted.address + wanted.len,
        memory.pages.contains_key((wanted.address - wanted.address % 4096) as u64),
        memory.pages[(wanted.address - wanted.address % 4096) as u64].end == wanted.address
            - wanted.address % 4096 + 4096,
    ensures
        ({
            let page = (wanted.address - wanted.address % 4096) as u64;
            let before = memory.pages[page].permissions;
            let after = wanted.added(memory).pages[page].permissions;
            &&& after.read == (before.read || wanted.permissions.read)
            &&& after.write == (before.write || wanted.permissions.write)
            &&& after.execute == (before.execute || wanted.permissions.execute)
        }),
{
    reveal(Memory::consistent);
    reveal(Memory::without);
    reveal(Memory::bordered);
    reveal(Request::added);
}

/// Numbers of 48 bits with the highest bit set stand for addresses of the upper half.
pub proof fn law_sign_extension(address: int)
    ensures
        0x8000_0000_0000 <= address < 0x1_0000_0000_0000 ==> state::extended(address) == address
            + 0xffff_0000_0000_0000,
        address < 0x8000_0000_0000 || 0x1_0000_0000_0000 <= address ==> state::extended(address)
            == address,
{
}

/// A range of the lower half can be unmapped.
pub proof fn law_unmapping_is_possible(pages: Map<u64, PageInfo>, address: int, len: int)
    requires
        0 <= address,
        0 <= len,
        address + len < 0x7fff_ffff_f000,
    ensures
        state::can_unmap(pages, address, len),
{
}

/// Whole pages of zeros can be mapped in the lower half.
pub proof fn law_mapping_is_possible(
    memory: Memory,
    addr: VirtAddr,
    len: u64,
    permissions: MemoryPermissions,
)
    requires
        addr@ % 4096 == 0,
        len % 4096 == 0,
        addr@ + len <= 0x7fff_ffff_f000,
    ensures
        request::may_add(memory, Some(addr), len, permissions, Backing::Zero),
        request::may_add(memory, None, len, permissions, Backing::Zero),
        request::may_add(memory, Some(addr), len, permissions, Backing::Stack),
        request::may_add(memory, None, len, permissions, Backing::Stack),
{
}

/// Memory that starts out as zero can be mapped where nothing is mapped, whether the ends are aligned or
/// not.
pub proof fn law_mapping_of_free_memory_is_possible(
    memory: Memory,
    addr: VirtAddr,
    len: u64,
    permissions: MemoryPermissions,
)
    requires
        addr@ + len <= 0x7fff_ffff_f000,
        forall|page: u64| #[trigger]
            memory.pages.contains_key(page) ==> page + 4096 <= addr@ || addr@ + len <= page,
    ensures
        request::may_add(memory, Some(addr), len, permissions, Backing::Zero),
{
    reveal(Memory::without);
    reveal(Memory::bordered);
    let wanted = request::request(addr, len, permissions, Backing::Zero);
    let m1 = memory.without(wanted.address, wanted.len);
    let m2 = wanted.after_head(memory);
    if wanted.len > 0 {
        assert(!memory.pages.contains_key(wanted.head_page()) || !wanted.has_head());
        assert(!memory.pages.contains_key(wanted.tail_page()) || !wanted.has_tail());
    }
}

} // verus!
