//! The nodes of the file system.
use std::sync::Arc;
use vstd::prelude::*;

use crate::addr::PAGE_SIZE;
use crate::memory::pagetable::{self, Frame, PAGE_LEN};
use crate::user::process::syscall::args::FileType;

pub mod fdfs;
pub mod names;
pub mod tmpfs;

verus! {

/// The immutable content of a file at some point in time.
pub struct FileSnapshot {
    bytes: Arc<Vec<u8>>,
    static_base: Option<u64>,
}

impl View for FileSnapshot {
    type V = Seq<u8>;

    closed spec fn view(&self) -> Seq<u8> {
        self.bytes@
    }
}

impl FileSnapshot {
    /// The address of the content if it is part of the kernel's image.
    pub closed spec fn base(self) -> Option<u64> {
        self.static_base
    }

    /// Content that is part of the kernel's image doesn't reach past the end of the address space.
    #[verifier::type_invariant]
    pub closed spec fn wf(self) -> bool {
        self.static_base matches Some(base) ==> base + self.bytes@.len() <= u64::MAX
    }

    /// Creates a snapshot that owns its content.
    pub fn new(bytes: Vec<u8>) -> (res: Self)
        ensures
            res@ == bytes@,
            res.base() is None,
    {
        FileSnapshot { bytes: Arc::new(bytes), static_base: None }
    }

    /// Creates a snapshot of content that is part of the kernel's image at `base`.
    pub fn new_static(bytes: Vec<u8>, base: u64) -> (res: Self)
        requires
            base + bytes@.len() <= u64::MAX,
        ensures
            res@ == bytes@,
            res.base() == Some(base),
    {
        FileSnapshot { bytes: Arc::new(bytes), static_base: Some(base) }
    }

    /// The length of the content is representable.
    pub proof fn lemma_len(&self)
        ensures
            self@.len() <= usize::MAX,
    {
        assert(self.bytes@.len() == self.bytes.len());
    }

    /// The length of the content.
    pub fn len(&self) -> (res: usize)
        ensures
            res == self@.len(),
    {
        self.bytes.len()
    }

    /// The byte at an index.
    pub fn get(&self, index: usize) -> (res: u8)
        requires
            index < self@.len(),
        ensures
            res == self@[index as int],
    {
        self.bytes[index]
    }

    /// The address of the content if it is part of the kernel's image.
    pub fn static_base(&self) -> (res: Option<u64>)
        ensures
            res == self.base(),
            res matches Some(base) ==> base + self@.len() <= u64::MAX,
    {
        proof {
            use_type_invariant(self);
        }
        self.static_base
    }

    /// A frame that shares a part of the content.
    pub fn shared_frame(&self, offset: usize) -> (res: Frame)
        requires
            offset + PAGE_SIZE <= self@.len(),
        ensures
            res is Shared,
            res.wf(),
            res.bytes() == self@.subrange(offset as int, offset + PAGE_SIZE),
    {
        Frame::Shared(self.bytes.clone(), offset)
    }

    /// A frame with a copy of a part of the content. What is past the end of the content is zero.
    pub fn copied_frame(&self, offset: usize) -> (res: Frame)
        requires
            offset <= self@.len(),
        ensures
            res is Owned,
            res.wf(),
            res.bytes() == pagetable::padded(self@, offset as int),
    {
        let mut bytes: Vec<u8> = Vec::new();
        let mut i: usize = 0;
        assert(self.bytes@.len() == self.bytes.len());
        while i < PAGE_LEN
            invariant
                i <= PAGE_LEN,
                bytes@.len() == i,
                offset <= self@.len() <= usize::MAX,
                forall|j: int| 0 <= j < i ==> bytes@[j] == pagetable::padded(self@, offset as int)[j],
            decreases PAGE_LEN - i,
        {
            if i < self.bytes.len() - offset {
                bytes.push(self.bytes[offset + i]);
            } else {
                bytes.push(0);
            }
            i = i + 1;
        }
        assert(bytes@ =~= pagetable::padded(self@, offset as int));
        Frame::Owned(bytes)
    }
}

impl Clone for FileSnapshot {
    fn clone(&self) -> (res: Self)
        ensures
            res == *self,
    {
        proof {
            use_type_invariant(self);
        }
        FileSnapshot { bytes: self.bytes.clone(), static_base: self.static_base }
    }
}

/// A node as a directory that contains it sees it.
#[derive(Clone, Copy, PartialEq, Eq, Structural, Debug)]
pub struct DynINode {
    /// The number of the node.
    pub ino: u64,
    /// What the node is.
    pub ty: FileType,
}

/// The name of an entry of a directory.
pub enum DirEntryName {
    /// The directory itself.
    Dot,
    /// The parent of the directory.
    DotDot,
    /// A file.
    FileName(Vec<u8>),
}

/// An entry of a directory.
pub struct DirEntry {
    /// The number of the node.
    pub ino: u64,
    /// What the node is.
    pub ty: FileType,
    /// The name.
    pub name: DirEntryName,
}

} // verus!
