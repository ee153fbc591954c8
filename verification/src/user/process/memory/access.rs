//! What holds of accesses to virtual memory, in terms of single pages and bytes.
use vstd::prelude::*;

use crate::addr::{self, Page};
use crate::error::Error;
use crate::user::process::memory::mapping::Source;
use crate::user::process::memory::state::Memory;
use crate::user::process::memory::{self, PageFaultOutcome};

verus! {

/// The content of memory is what the page table says. Pages that aren't present yet have the content
/// of their mapping: zeros, or a part of a file that goes on with zeros past the end of the file.
pub proof fn law_content_of_memory(memory: Memory, address: int)
    requires
        0 <= address <= u64::MAX,
    ensures
        ({
            let at = address % 4096;
            let page = (address - at) as u64;
            if memory.table.contains_key(page) {
                memory.byte(address) == memory.table[page].bytes[at]
            } else {
                match memory.pages[page].source {
                    Source::Zero => memory.byte(address) == 0,
                    Source::Stack => memory.byte(address) == 0,
                    Source::File { bytes, base, offset } => memory.byte(address) == if offset + at
                        < bytes.len() {
                        bytes[offset + at]
                    } else {
                        0
                    },
                }
            }
        }),
{
}

/// What the bits of an error code mean.
pub(crate) proof fn lemma_fault_bits(error_code: u64)
    ensures
        error_code & 0x8000_8078 == 0 && error_code & 2 == 2 ==> error_code & 0x8000_807b == 2
            || error_code & 0x8000_807b == 3,
        error_code & 0x8000_807b == 2 || error_code & 0x8000_807b == 3 ==> error_code & 0x8000_8078
            == 0 && error_code & 2 == 2,
{
    assert(error_code & 0x8000_8078 == 0 && error_code & 2 == 2 ==> error_code & 0x8000_807b == 2
        || error_code & 0x8000_807b == 3) by (bit_vector);
    assert(error_code & 0x8000_807b == 2 || error_code & 0x8000_807b == 3 ==> error_code
        & 0x8000_8078 == 0 && error_code & 2 == 2) by (bit_vector);
}

/// A page fault is about one page. Memory that isn't mapped stays that way, and no other page is
/// affected. Nothing changes unless the page fault has been handled.
pub proof fn law_fault_is_about_one_page(
    memory: Memory,
    addr: u64,
    error_code: u64,
    new: Memory,
    res: PageFaultOutcome,
    other: u64,
)
    requires
        addr < 0x8000_0000_0000 || addr >= 0xffff_8000_0000_0000,
        memory::fault_result(memory, addr, error_code, new, res),
    ensures
        ({
            let page = (addr - addr % 4096) as u64;
            &&& res == PageFaultOutcome::NotMapped <==> !memory.pages.contains_key(page)
            &&& res != PageFaultOutcome::Handled ==> new == memory
            &&& new.pages == memory.pages
            &&& other != page ==> new.table.contains_key(other) == memory.table.contains_key(other)
                && new.table[other] == memory.table[other]
        }),
{
}

/// A page fault that was caused by a write, whether the page was present or not, makes the page
/// writable if its mapping may be read and written. The page has a frame of its own then, with the
/// content that it had before. Otherwise the write is denied.
pub proof fn law_write_fault_makes_writable(
    memory: Memory,
    addr: u64,
    error_code: u64,
    new: Memory,
    res: PageFaultOutcome,
)
    requires
        addr < 0x8000_0000_0000 || addr >= 0xffff_8000_0000_0000,
        memory.pages.contains_key((addr - addr % 4096) as u64),
        error_code & 2 == 2,
        error_code & 0x8000_8078 == 0,
        memory::fault_result(memory, addr, error_code, new, res),
    ensures
        ({
            let page = (addr - addr % 4096) as u64;
            let permissions = memory.pages[page].permissions;
            &&& res == PageFaultOutcome::Handled <==> permissions.read && permissions.write
            &&& res == PageFaultOutcome::Denied <==> !permissions.read || !permissions.write
            &&& res == PageFaultOutcome::Handled ==> {
                let entry = new.table[page];
                &&& new.table.contains_key(page)
                &&& entry.flags.writable
                &&& !entry.flags.cow
                &&& memory.table.contains_key(page) ==> {
                    let before = memory.table[page];
                    &&& entry.bytes == before.bytes
                    &&& entry.dirty == before.dirty
                    &&& entry.flags.executable == before.flags.executable
                    &&& entry.flags.user == (before.flags.user || !before.flags.writable)
                    &&& entry.flags.global == before.flags.global
                    &&& entry.flags.local == before.flags.local
                }
                &&& !memory.table.contains_key(page) ==> {
                    &&& entry.bytes.len() == 4096
                    &&& forall|i: int|
                        0 <= i < 4096 ==> #[trigger] entry.bytes[i] == match memory.pages[page].source {
                            Source::Zero => 0,
                            Source::Stack => 0,
                            Source::File { bytes, base, offset } => if offset + i < bytes.len() {
                                bytes[offset + i]
                            } else {
                                0
                            },
                        }
                    &&& !entry.dirty
                    &&& entry.flags.user
                    &&& entry.flags.executable == permissions.execute
                    &&& !entry.flags.global && !entry.flags.local
                }
            }
        }),
{
    lemma_fault_bits(error_code);
}

/// A page fault that was caused by a read of a page that isn't present brings the page in if its
/// mapping may be read. A page is only writable if its mapping is, and only if nothing else uses its
/// frame.
pub proof fn law_read_fault_brings_in(
    memory: Memory,
    addr: u64,
    error_code: u64,
    new: Memory,
    res: PageFaultOutcome,
)
    requires
        addr < 0x8000_0000_0000 || addr >= 0xffff_8000_0000_0000,
        memory.pages.contains_key((addr - addr % 4096) as u64),
        error_code & 0x8000_807b == 0,
        memory::fault_result(memory, addr, error_code, new, res),
    ensures
        ({
            let page = (addr - addr % 4096) as u64;
            let permissions = memory.pages[page].permissions;
            &&& res == PageFaultOutcome::Handled <==> permissions.read
            &&& res == PageFaultOutcome::Denied <==> !permissions.read
            &&& permissions.read && memory.table.contains_key(page) ==> new.table.contains_key(page)
                && new.table[page] == memory.table[page]
            &&& permissions.read && !memory.table.contains_key(page) ==> {
                let entry = new.table[page];
                let shared = memory.pages[page].source matches Source::File { bytes, base, offset }
                    && base is Some && (base->0 + offset) % 4096 == 0;
                &&& new.table.contains_key(page)
                &&& entry.bytes.len() == 4096
                &&& forall|i: int|
                    0 <= i < 4096 ==> #[trigger] entry.bytes[i] == match memory.pages[page].source {
                        Source::Zero => 0,
                        Source::Stack => 0,
                        Source::File { bytes, base, offset } => if offset + i < bytes.len() {
                            bytes[offset + i]
                        } else {
                            0
                        },
                    }
                &&& !entry.dirty
                &&& entry.flags.user
                &&& entry.flags.cow == shared
                &&& entry.flags.writable == (permissions.write && !shared)
                &&& entry.flags.executable == permissions.execute
                &&& !entry.flags.global && !entry.flags.local
            }
        }),
{
}

/// A page fault that was caused by an instruction fetch makes the page executable if its mapping may
/// be read and executed. The content of the page is kept, and whether it's writable.
pub proof fn law_fetch_fault_makes_executable(
    memory: Memory,
    addr: u64,
    error_code: u64,
    new: Memory,
    res: PageFaultOutcome,
)
    requires
        addr < 0x8000_0000_0000 || addr >= 0xffff_8000_0000_0000,
        memory.pages.contains_key((addr - addr % 4096) as u64),
        error_code & 0x8000_807b == 16,
        memory::fault_result(memory, addr, error_code, new, res),
    ensures
        ({
            let page = (addr - addr % 4096) as u64;
            let permissions = memory.pages[page].permissions;
            &&& res == PageFaultOutcome::Handled <==> permissions.read && permissions.execute
            &&& res == PageFaultOutcome::Denied <==> !permissions.read || !permissions.execute
            &&& res == PageFaultOutcome::Handled ==> {
                let entry = new.table[page];
                &&& new.table.contains_key(page)
                &&& entry.flags.executable
                &&& memory.table.contains_key(page) ==> {
                    let before = memory.table[page];
                    &&& entry.bytes == before.bytes
                    &&& entry.dirty == before.dirty
                    &&& entry.flags.writable == before.flags.writable
                    &&& entry.flags.cow == before.flags.cow
                    &&& entry.flags.user == before.flags.user
                    &&& entry.flags.global == before.flags.global
                    &&& entry.flags.local == before.flags.local
                }
                &&& !memory.table.contains_key(page) ==> {
                    &&& !entry.dirty
                    &&& entry.flags.user
                    &&& entry.flags.writable ==> permissions.write && !entry.flags.cow
                    &&& forall|i: int|
                        0 <= i < 4096 ==> #[trigger] entry.bytes[i] == memory.byte(page + i)
                }
            }
        }),
{
}

/// A page fault with any other cause isn't handled.
pub proof fn law_other_faults_are_not_handled(
    memory: Memory,
    addr: u64,
    error_code: u64,
    new: Memory,
    res: PageFaultOutcome,
)
    requires
        addr < 0x8000_0000_0000 || addr >= 0xffff_8000_0000_0000,
        memory.pages.contains_key((addr - addr % 4096) as u64),
        !(error_code & 2 == 2 && error_code & 0x8000_8078 == 0),
        error_code & 0x8000_807b != 0,
        error_code & 0x8000_807b != 16,
        memory::fault_result(memory, addr, error_code, new, res),
    ensures
        res == PageFaultOutcome::Unsupported,
        new == memory,
{
    lemma_fault_bits(error_code);
}

/// A page that may be read, as the address of a byte in it.
proof fn lemma_page_of_byte(memory: Memory, at: int)
    requires
        0 <= at <= u64::MAX,
    ensures
        memory.readable(memory::page_start(at)) <==> {
            let page = (at - at % 4096) as u64;
            memory.pages.contains_key(page) && memory.pages[page].permissions.read
        },
        memory.writable(memory::page_start(at)) <==> {
            let page = (at - at % 4096) as u64;
            memory.pages.contains_key(page) && memory.pages[page].permissions.read
                && memory.pages[page].permissions.write
        },
{
}

/// A string whose bytes all go on until some point is scanned up to that point.
proof fn lemma_scan_to(memory: Memory, address: int, count: int, len: int, max: int)
    requires
        count <= len <= max + 1,
        forall|at: int|
            address + count <= at < address + len ==> #[trigger] memory.byte(at) != 0,
        forall|at: int|
            address + count <= at < address + len ==> #[trigger] memory.goes_on(at),
        len <= max ==> !memory.goes_on(address + len),
    ensures
        memory.scan(address, count, max) == len,
    decreases len - count,
{
    if count < len {
        assert(memory.goes_on(address + count));
        lemma_scan_to(memory, address, count + 1, len, max);
    }
}

/// Reading a string returns exactly the bytes before the first zero, if there is one within the
/// maximum length and all memory up to it can be read.
pub proof fn law_string_ends_at_zero(
    memory: Memory,
    address: int,
    len: int,
    max: int,
    res: Result<Vec<u8>, Error>,
)
    requires
        0 <= address,
        0 <= len <= max,
        address + len <= u64::MAX,
        forall|page: u64|
            #![trigger memory.pages.contains_key(page)]
            #![trigger memory.pages[page]]
            page % 4096 == 0 && address < page + 4096 && page < address + len + 1 ==> memory.pages.contains_key(page)
                && memory.pages[page].permissions.read,
        forall|at: int| address <= at < address + len ==> #[trigger] memory.byte(at) != 0,
        memory.byte(address + len) == 0,
        memory::cstring_result(memory, address, max, res),
    ensures
        res is Ok,
        res->Ok_0@.len() == len,
        forall|i: int| 0 <= i < len ==> #[trigger] res->Ok_0@[i] == memory.byte(address + i),
        memory::cstring_extent(memory, address, max) == len + 1,
{
    assert forall|at: int| address <= at < address + len implies #[trigger] memory.goes_on(at) by {
        lemma_page_of_byte(memory, at);
        assert(memory.byte(at) != 0);
    }
    lemma_page_of_byte(memory, address + len);
    lemma_scan_to(memory, address, 0, len, max);
}

/// Reading a string fails if some memory before its end can't be read.
pub proof fn law_string_faults(
    memory: Memory,
    address: int,
    len: int,
    max: int,
    res: Result<Vec<u8>, Error>,
)
    requires
        0 <= address,
        0 <= len <= max,
        address + len <= u64::MAX,
        forall|page: u64|
            #![trigger memory.pages.contains_key(page)]
            #![trigger memory.pages[page]]
            page % 4096 == 0 && address < page + 4096 && page < address + len ==> memory.pages.contains_key(page)
                && memory.pages[page].permissions.read,
        forall|at: int| address <= at < address + len ==> #[trigger] memory.byte(at) != 0,
        ({
            let page = (address + len - (address + len) % 4096) as u64;
            !memory.pages.contains_key(page) || !memory.pages[page].permissions.read
        }),
        memory::cstring_result(memory, address, max, res),
    ensures
        res == Err::<Vec<u8>, Error>(Error::Fault),
        memory::cstring_extent(memory, address, max) == len,
{
    assert forall|at: int| address <= at < address + len implies #[trigger] memory.goes_on(at) by {
        lemma_page_of_byte(memory, at);
        assert(memory.byte(at) != 0);
    }
    lemma_page_of_byte(memory, address + len);
    lemma_scan_to(memory, address, 0, len, max);
}

/// Reading a string fails if there's no zero within the maximum length.
pub proof fn law_string_too_long(
    memory: Memory,
    address: int,
    max: int,
    res: Result<Vec<u8>, Error>,
)
    requires
        0 <= address,
        0 <= max,
        address + max <= u64::MAX,
        forall|page: u64|
            #![trigger memory.pages.contains_key(page)]
            #![trigger memory.pages[page]]
            page % 4096 == 0 && address < page + 4096 && page < address + max + 1 ==> memory.pages.contains_key(page)
                && memory.pages[page].permissions.read,
        forall|at: int| address <= at <= address + max ==> #[trigger] memory.byte(at) != 0,
        memory::cstring_result(memory, address, max, res),
    ensures
        res == Err::<Vec<u8>, Error>(Error::NameTooLong),
        memory::cstring_extent(memory, address, max) == max + 1,
{
    assert forall|at: int| address <= at <= address + max implies #[trigger] memory.goes_on(at) by {
        lemma_page_of_byte(memory, at);
        assert(memory.byte(at) != 0);
    }
    lemma_scan_to(memory, address, 0, max + 1, max);
}

/// Paths have at most 4096 bytes.
pub proof fn law_path_length(memory: Memory, address: int, len: int, res: Result<Vec<u8>, Error>)
    requires
        0 <= address,
        0 <= len,
        address + len <= u64::MAX,
        forall|page: u64|
            #![trigger memory.pages.contains_key(page)]
            #![trigger memory.pages[page]]
            page % 4096 == 0 && address < page + 4096 && page < address + len + 1 ==> memory.pages.contains_key(page)
                && memory.pages[page].permissions.read,
        forall|at: int| address <= at < address + len ==> #[trigger] memory.byte(at) != 0,
        memory.byte(address + len) == 0,
        memory::cstring_result(memory, address, memory::PATH_MAX as int, res),
    ensures
        len <= 4096 ==> res is Ok && res->Ok_0@.len() == len,
        len > 4096 ==> res == Err::<Vec<u8>, Error>(Error::NameTooLong),
{
    if len <= 4096 {
        law_string_ends_at_zero(memory, address, len, 4096, res);
    } else {
        law_string_too_long(memory, address, 4096, res);
    }
}

/// Reading a string doesn't affect memory. It brings in the pages of the bytes that are read.
pub proof fn law_string_keeps_memory(
    memory: Memory,
    address: int,
    count: int,
    other: int,
    page: u64,
)
    requires
        0 <= address,
        addr::is_page(page),
    ensures
        ({
            let new = memory.touched(address, count);
            &&& new.pages == memory.pages
            &&& new.byte(other) == memory.byte(other)
            &&& new.table.contains_key(page) <==> memory.table.contains_key(page) || (count > 0
                && address < page + 4096 && page < address + count)
            &&& memory.table.contains_key(page) ==> new.table[page] == memory.table[page]
        }),
{
}

/// How far an access gets: past exactly those addresses up to which all pages can be accessed.
proof fn lemma_reached(memory: Memory, write: bool, page: int, end: int, at: int)
    requires
        page % 4096 == 0,
        page <= at < end,
    ensures
        at < memory.reach(write, page, end) <==> forall|q: int|
            #![trigger memory.readable(q)]
            #![trigger memory.writable(q)]
            page <= q <= at && q % 4096 == 0 ==> memory.readable(q) && (write ==> memory.writable(
                q,
            )),
        memory.reach(write, page, end) <= end,
    decreases end - page,
{
    memory.lemma_reach(write, page, end);
    memory.lemma_reach(write, page + 4096, end);
    let can = memory.readable(page) && (write ==> memory.writable(page));
    if at >= page + 4096 {
        lemma_reached(memory, write, page + 4096, end, at);
    }
    if at < memory.reach(write, page, end) {
        assert forall|q: int|
            #![trigger memory.readable(q)]
            #![trigger memory.writable(q)]
            page <= q <= at && q % 4096 == 0 implies memory.readable(q) && (write
            ==> memory.writable(q)) by {
            assert(q == page || q >= page + 4096);
        }
    }
    assert(!can ==> memory.reach(write, page, end) == page);
}

/// How far an access gets, in terms of the mappings.
proof fn lemma_reached_pages(memory: Memory, write: bool, address: int, end: int, at: int)
    requires
        0 <= address <= at < end,
        end <= u64::MAX + 1,
    ensures
        at < memory.reach(write, memory::page_start(address), end) <==> forall|page: u64|
            #![trigger memory.pages.contains_key(page)]
            #![trigger memory.pages[page]]
            page % 4096 == 0 && address < page + 4096 && page < at + 1 ==> memory.pages.contains_key(
                page,
            ) && memory.pages[page].permissions.read && (write
                ==> memory.pages[page].permissions.write),
        memory.reach(write, memory::page_start(address), end) <= end,
{
    let first = memory::page_start(address);
    lemma_reached(memory, write, first, end, at);
    if at < memory.reach(write, first, end) {
        assert forall|page: u64|
            #![trigger memory.pages.contains_key(page)]
            #![trigger memory.pages[page]]
            page % 4096 == 0 && address < page + 4096 && page < at
                + 1 implies memory.pages.contains_key(page) && memory.pages[page].permissions.read && (
        write ==> memory.pages[page].permissions.write) by {
            assert(memory.readable(page as int));
        }
    } else {
        let q = choose|q: int|
            #![trigger memory.readable(q)]
            #![trigger memory.writable(q)]
            first <= q <= at && q % 4096 == 0 && !(memory.readable(q) && (write ==> memory.writable(q)));
        let page = q as u64;
        assert(page % 4096 == 0 && address < page + 4096 && page < at + 1);
        assert(!(memory.pages.contains_key(page) && memory.pages[page].permissions.read && (write
            ==> memory.pages[page].permissions.write)));
    }
}

/// Reading succeeds if and only if all pages of the range are mapped and readable. The buffer is
/// filled with the content of the memory up to the first page that can't be read, and keeps its
/// content from there on.
pub proof fn law_read_outcome(
    memory: Memory,
    address: int,
    buf: Seq<u8>,
    new: Memory,
    new_buf: Seq<u8>,
    res: Result<(), Error>,
)
    requires
        0 <= address,
        address + buf.len() <= u64::MAX + 1,
        memory::read_result(memory, address, buf, new, new_buf, res),
    ensures
        buf.len() == 0 ==> res is Ok,
        buf.len() > 0 ==> (res is Ok <==> forall|page: u64|
            #![trigger memory.pages.contains_key(page)]
            #![trigger memory.pages[page]]
            page % 4096 == 0 && address < page + 4096 && page < address + buf.len() ==> memory.pages.contains_key(page)
                && memory.pages[page].permissions.read),
        res is Err ==> res == Err::<(), Error>(Error::Fault),
        new_buf.len() == buf.len(),
        forall|i: int|
            0 <= i < buf.len() ==> #[trigger] new_buf[i] == if forall|page: u64|
                #![trigger memory.pages.contains_key(page)]
                #![trigger memory.pages[page]]
                page % 4096 == 0 && address < page + 4096 && page < address + i + 1 ==> memory.pages.contains_key(page)
                    && memory.pages[page].permissions.read {
                memory.byte(address + i)
            } else {
                buf[i]
            },
{
    let end = address + buf.len();
    if buf.len() > 0 {
        lemma_reached_pages(memory, false, address, end, end - 1);
        assert forall|i: int| 0 <= i < buf.len() implies #[trigger] new_buf[i] == if forall|page: u64|
            #![trigger memory.pages.contains_key(page)]
            #![trigger memory.pages[page]]
            page % 4096 == 0 && address < page + 4096 && page < address + i + 1 ==> memory.pages.contains_key(page)
                && memory.pages[page].permissions.read {
            memory.byte(address + i)
        } else {
            buf[i]
        } by {
            lemma_reached_pages(memory, false, address, end, address + i);
        }
    }
}

/// Writing succeeds if and only if all pages of the range are mapped, readable and writable.
pub proof fn law_write_outcome(
    memory: Memory,
    address: int,
    bytes: Seq<u8>,
    new: Memory,
    res: Result<(), Error>,
)
    requires
        0 <= address,
        address + bytes.len() <= u64::MAX + 1,
        memory::write_result(memory, address, bytes, new, res),
    ensures
        new.pages == memory.pages,
        bytes.len() == 0 ==> res is Ok && new == memory,
        bytes.len() > 0 ==> (res is Ok <==> forall|page: u64|
            #![trigger memory.pages.contains_key(page)]
            #![trigger memory.pages[page]]
            page % 4096 == 0 && address < page + 4096 && page < address + bytes.len() ==> memory.pages.contains_key(page)
                && memory.pages[page].permissions.read && memory.pages[page].permissions.write),
        res is Err ==> res == Err::<(), Error>(Error::Fault),
{
    let end = address + bytes.len();
    if bytes.len() > 0 {
        lemma_reached_pages(memory, true, address, end, end - 1);
    }
}

/// Memory has the new content after writing, up to the first page that can't be written to, and keeps
/// its content from there on. Pages that have been written to are marked as such and have a frame of
/// their own.
pub proof fn law_written_content(
    memory: Memory,
    address: int,
    bytes: Seq<u8>,
    new: Memory,
    res: Result<(), Error>,
    i: int,
)
    requires
        memory.consistent(),
        0 <= address,
        address + bytes.len() <= u64::MAX + 1,
        memory::write_result(memory, address, bytes, new, res),
        0 <= i < bytes.len(),
    ensures
        ({
            let at = (address + i) % 4096;
            let page = (address + i - at) as u64;
            if forall|page: u64|
                #![trigger memory.pages.contains_key(page)]
                #![trigger memory.pages[page]]
                page % 4096 == 0 && address < page + 4096 && page < address + i + 1 ==> memory.pages.contains_key(page)
                    && memory.pages[page].permissions.read && memory.pages[page].permissions.write {
                &&& new.byte(address + i) == bytes[i]
                &&& new.table.contains_key(page)
                &&& new.table[page].bytes[at] == bytes[i]
                &&& new.table[page].dirty
                &&& new.table[page].flags.writable
                &&& !new.table[page].flags.cow
            } else {
                memory.pages.contains_key(page) ==> new.byte(address + i) == memory.byte(
                    address + i,
                )
            }
        }),
{
    lemma_reached_pages(memory, true, address, address + bytes.len(), address + i);
    lemma_stored_byte(memory, address, bytes, i);
}

/// What a byte is after writing.
proof fn lemma_stored_byte(memory: Memory, address: int, bytes: Seq<u8>, i: int)
    requires
        memory.consistent(),
        0 <= address,
        address + bytes.len() <= u64::MAX + 1,
        0 <= i < bytes.len(),
    ensures
        ({
            let first = memory::page_start(address);
            let stop = memory.reach(true, first, address + bytes.len());
            let new = memory.stored(first, stop, address, bytes);
            let page = (address + i - (address + i) % 4096) as u64;
            if address + i < stop {
                memory.pages.contains_key(page) ==> {
                    &&& new.byte(address + i) == bytes[i]
                    &&& new.table.contains_key(page)
                    &&& new.table[page].bytes[(address + i) % 4096] == bytes[i]
                    &&& new.table[page].dirty
                    &&& new.table[page].flags.writable
                    &&& !new.table[page].flags.cow
                }
            } else {
                memory.pages.contains_key(page) ==> new.byte(address + i) == memory.byte(
                    address + i,
                )
            }
        }),
{
    let end = address + bytes.len();
    let first = memory::page_start(address);
    let stop = memory.reach(true, first, end);
    let page = (address + i - (address + i) % 4096) as u64;
    memory.lemma_reach(true, first, end);
    lemma_stop_is_aligned(memory, true, first, end);
    assert(memory.pages.contains_key(page) ==> addr::is_page(page) && memory.entry(page).bytes.len()
        == 4096) by {
        reveal(Memory::consistent);
    }
}

/// An access ends at the start of a page or at the end of the range.
proof fn lemma_stop_is_aligned(memory: Memory, write: bool, page: int, end: int)
    requires
        page % 4096 == 0,
    ensures
        memory.reach(write, page, end) == end || memory.reach(write, page, end) % 4096 == 0,
    decreases
            (if page < end {
                end - page
            } else {
                0
            }),
{
    if page < end {
        lemma_stop_is_aligned(memory, write, page + 4096, end);
    }
}

/// Reading brings in the pages of the range without marking them as written to. Pages that are present
/// already, and all other pages, stay as they are.
pub proof fn law_read_brings_in_pages(
    memory: Memory,
    address: int,
    buf: Seq<u8>,
    new: Memory,
    new_buf: Seq<u8>,
    page: u64,
)
    requires
        0 <= address,
        address + buf.len() <= u64::MAX + 1,
        addr::is_page(page),
        memory::read_result(memory, address, buf, new, new_buf, Ok(())),
    ensures
        memory.table.contains_key(page) ==> new.table.contains_key(page) && new.table[page]
            == memory.table[page],
        buf.len() > 0 && address < page + 4096 && page < address + buf.len()
            ==> new.table.contains_key(page) && (!memory.table.contains_key(page)
            ==> !new.table[page].dirty),
        buf.len() == 0 || page + 4096 <= address || address + buf.len() <= page
            ==> new.table.contains_key(page) == memory.table.contains_key(page),
{
}

/// Writing doesn't affect the entries of pages outside of the range.
pub proof fn law_write_keeps_other_pages(
    memory: Memory,
    address: int,
    bytes: Seq<u8>,
    new: Memory,
    res: Result<(), Error>,
    page: u64,
)
    requires
        0 <= address,
        address + bytes.len() <= u64::MAX + 1,
        addr::is_page(page),
        page + 4096 <= address || address + bytes.len() <= page || bytes.len() == 0,
        memory::write_result(memory, address, bytes, new, res),
    ensures
        new.table.contains_key(page) == memory.table.contains_key(page),
        memory.table.contains_key(page) ==> new.table[page] == memory.table[page],
{
    if bytes.len() > 0 {
        memory.lemma_reach(true, memory::page_start(address), address + bytes.len());
    }
}

/// A range can't be read if it has a page that may be read and isn't present, and that its file ends
/// before.
pub proof fn law_access_needs_content(memory: Memory, address: int, len: int, at: u64)
    requires
        0 <= address,
        0 < len,
        address + len <= u64::MAX + 1,
        at % 4096 == 0,
        address < at + 4096,
        at < address + len,
        forall|page: u64|
            #![trigger memory.pages.contains_key(page)]
            #![trigger memory.pages[page]]
            page % 4096 == 0 && address < page + 4096 && page < address + len
                ==> memory.pages.contains_key(page) && memory.pages[page].permissions.read,
        !memory.table.contains_key(at),
        memory.pages[at].source matches Source::File { bytes, base, offset } && offset > bytes.len(),
    ensures
        !memory.can_access(false, address, len),
{
    lemma_reached_pages(memory, false, address, address + len, address + len - 1);
    assert(memory.pages.contains_key(at));
    assert(memory::page_start(address) <= at < memory.reach(
        false,
        memory::page_start(address),
        address + len,
    ));
}

/// The pages that have been written to are collected in ascending order and with their content.
pub proof fn law_dirty_pages(memory: Memory, pages: Seq<(Page, Vec<u8>)>, i: int, j: int, page: u64)
    requires
        memory.are_dirty_pages(pages),
        0 <= i < j < pages.len(),
    ensures
        pages[i].0@ < pages[j].0@,
        memory.table.contains_key(pages[i].0@),
        memory.table[pages[i].0@].dirty,
        pages[i].1@ == memory.table[pages[i].0@].bytes,
        memory.table.contains_key(page) && memory.table[page].dirty ==> exists|k: int|
            0 <= k < pages.len() && (#[trigger] pages[k]).0@ == page,
{
}

} // verus!
