//! The file system.
use vstd::prelude::*;

use crate::addr::{self, Page, PhysFrame, VirtAddr, LOWER_HALF_END, PAGE_SIZE, UPPER_HALF_START};

pub mod node;

verus! {

/// A file that is part of the kernel's image.
#[derive(Clone, Copy, PartialEq, Eq, Structural, Debug)]
pub enum StaticFile {
    /// The program that is run first.
    Init,
    /// The input for that program.
    Input,
}

/// A file that is placed in the file system at the start.
pub struct InitialFile {
    /// The name of the directory.
    pub dir: Vec<u8>,
    /// The name of the file.
    pub name: Vec<u8>,
    /// The content of the file.
    pub file: StaticFile,
    /// Whether the file can be executed.
    pub executable: bool,
    /// Whether the file must not exist yet.
    pub create_new: bool,
}

/// The name `bin`.
pub open spec fn bin() -> Seq<u8> {
    seq![98u8, 105, 110]
}

/// The name `init`.
pub open spec fn init_name() -> Seq<u8> {
    seq![105u8, 110, 105, 116]
}

/// The name `dev`.
pub open spec fn dev() -> Seq<u8> {
    seq![100u8, 101, 118]
}

/// The name `input`.
pub open spec fn input_name() -> Seq<u8> {
    seq![105u8, 110, 112, 117, 116]
}

/// The program that is run first.
fn load_init() -> (res: InitialFile)
    ensures
        res.dir@ == bin(),
        res.name@ == init_name(),
        res.file == StaticFile::Init,
        res.executable,
        res.create_new,
{
    let dir: Vec<u8> = vec![98u8, 105, 110];
    let name: Vec<u8> = vec![105u8, 110, 105, 116];
    assert(dir@ =~= bin());
    assert(name@ =~= init_name());
    InitialFile { dir, name, file: StaticFile::Init, executable: true, create_new: true }
}

/// The input for the program that is run first.
fn load_input() -> (res: InitialFile)
    ensures
        res.dir@ == dev(),
        res.name@ == input_name(),
        res.file == StaticFile::Input,
        !res.executable,
        res.create_new,
{
    let dir: Vec<u8> = vec![100u8, 101, 118];
    let name: Vec<u8> = vec![105u8, 110, 112, 117, 116];
    assert(dir@ =~= dev());
    assert(name@ =~= input_name());
    InitialFile { dir, name, file: StaticFile::Input, executable: false, create_new: true }
}

/// Returns the files that are placed in the file system at the start, in order.
pub fn init() -> (res: Vec<InitialFile>)
    ensures
        res@.len() == 2,
        res@[0].dir@ == bin() && res@[0].name@ == init_name(),
        res@[0].file == StaticFile::Init && res@[0].executable && res@[0].create_new,
        res@[1].dir@ == dev() && res@[1].name@ == input_name(),
        res@[1].file == StaticFile::Input && !res@[1].executable && res@[1].create_new,
{
    let mut files: Vec<InitialFile> = Vec::new();
    files.push(load_init());
    files.push(load_input());
    files
}

/// Where a static file is in memory and how it gets there.
pub struct LoadedFile {
    /// Which pages have to be mapped to which frames.
    pub mappings: Vec<(Page, PhysFrame)>,
    /// Where the content starts.
    pub start: VirtAddr,
    /// The length of the content.
    pub len: u64,
}

/// The number of pages that the content of a file takes up.
pub open spec fn pages_for(len: int) -> int {
    (len + PAGE_SIZE - 1) / PAGE_SIZE as int
}

/// Whether a number of pages follow a page in its half.
pub open spec fn has_pages(page: u64, count: int) -> bool {
    page + count * PAGE_SIZE < LOWER_HALF_END || (UPPER_HALF_START <= page && page + count
        * PAGE_SIZE <= addr::LAST_PAGE)
}

/// Whether the content of a file ends before its half does. There is a page after the header even if
/// there is no content.
pub open spec fn has_content_pages(page: u64, len: int) -> bool {
    if len == 0 {
        has_pages(page, 1)
    } else {
        has_pages(page, pages_for(len))
    }
}

/// Plans how a static file is brought into memory. The length of the file is in the page before
/// its content.
///
/// There have to be enough pages and frames for the content.
pub fn load_static_file(
    header_page: Page,
    num_pages: u64,
    header_frame: PhysFrame,
    num_frames: u64,
    len: u64,
) -> (res: LoadedFile)
    requires
        pages_for(len as int) < num_pages,
        pages_for(len as int) < num_frames,
        has_content_pages(header_page@, len as int),
        header_frame@ + pages_for(len as int) * PAGE_SIZE < addr::PHYS_ADDR_END,
    ensures
        res.len == len,
        res.start@ == header_page@ + PAGE_SIZE,
        res.mappings@.len() == pages_for(len as int),
        forall|i: int|
            0 <= i < res.mappings@.len() ==> {
                &&& (#[trigger] res.mappings@[i]).0@ == header_page@ + (i + 1) * PAGE_SIZE
                &&& res.mappings@[i].1@ == header_frame@ + (i + 1) * PAGE_SIZE
            },
{
    let page: u64 = header_page.start();
    let frame: u64 = header_frame.start_address();
    let count: u64 = if len % PAGE_SIZE == 0 {
        len / PAGE_SIZE
    } else {
        len / PAGE_SIZE + 1
    };
    assert(count == pages_for(len as int));
    let mut mappings: Vec<(Page, PhysFrame)> = Vec::new();
    let mut i: u64 = 0;
    while i < count
        invariant
            i <= count,
            page == header_page@,
            frame == header_frame@,
            addr::is_page(page),
            addr::is_frame(frame as int),
            count > 0 ==> has_pages(page, count as int),
            frame + count * PAGE_SIZE < addr::PHYS_ADDR_END,
            mappings@.len() == i,
            forall|j: int|
                0 <= j < i ==> {
                    &&& (#[trigger] mappings@[j]).0@ == page + (j + 1) * PAGE_SIZE
                    &&& mappings@[j].1@ == frame + (j + 1) * PAGE_SIZE
                },
        decreases count - i,
    {
        i = i + 1;
        let next: Page = Page::containing_address(VirtAddr::new(page + i * PAGE_SIZE));
        let next_frame: PhysFrame = PhysFrame::from_start_address(frame + i * PAGE_SIZE).unwrap();
        mappings.push((next, next_frame));
    }
    LoadedFile { mappings, start: VirtAddr::new(page + PAGE_SIZE), len }
}

/// A file takes up as many pages as are needed for its content, and no more.
pub proof fn law_pages_for_content(len: int)
    requires
        0 <= len,
    ensures
        len <= 4096 * pages_for(len) < len + 4096,
{
}

/// The names of the files that are placed in the file system at the start.
pub proof fn law_initial_names()
    ensures
        bin() == "bin"@.map_values(|c: char| c as u8),
        init_name() == "init"@.map_values(|c: char| c as u8),
        dev() == "dev"@.map_values(|c: char| c as u8),
        input_name() == "input"@.map_values(|c: char| c as u8),
{
    reveal_strlit("bin");
    reveal_strlit("init");
    reveal_strlit("dev");
    reveal_strlit("input");
    assert(bin() =~= "bin"@.map_values(|c: char| c as u8));
    assert(init_name() =~= "init"@.map_values(|c: char| c as u8));
    assert(dev() =~= "dev"@.map_values(|c: char| c as u8));
    assert(input_name() =~= "input"@.map_values(|c: char| c as u8));
}

} // verus!
