//! A file system in memory.
use vstd::prelude::*;
use vstd::slice::slice_subrange;

use crate::addr::{self, VirtAddr};
use crate::error::Error;
use crate::fs::node::names::{self, NameMap};
use crate::fs::node::{DirEntry, DirEntryName, DynINode, FileSnapshot};
use crate::memory::pagetable;
use crate::user::process::memory::state::Memory;
use crate::user::process::memory::{self, ActiveVirtualMemory};
use crate::user::process::syscall::args::{
    self, FileMode, FileType, FileTypeAndMode, Stat, Timespec,
};

verus! {

/// Chunks one after the other.
pub open spec fn joined(chunks: Seq<Seq<u8>>) -> Seq<u8>
    decreases chunks.len(),
{
    if chunks.len() == 0 {
        Seq::empty()
    } else {
        chunks[0] + joined(chunks.skip(1))
    }
}

/// Zeros.
pub open spec fn zeros(len: int) -> Seq<u8> {
    Seq::new(len as nat, |i: int| 0)
}

/// The pieces of a range of the chunks. Chunks before the range are left out. Chunks after the
/// range have an empty piece.
pub open spec fn pieces(chunks: Seq<Seq<u8>>, offset: int, len: int) -> Seq<Seq<u8>>
    decreases chunks.len(),
{
    if chunks.len() == 0 {
        Seq::empty()
    } else if chunks[0].len() <= offset {
        pieces(chunks.skip(1), offset - chunks[0].len(), len)
    } else {
        let rest = chunks[0].len() - offset;
        let count = if rest < len {
            rest
        } else {
            len
        };
        seq![chunks[0].subrange(offset, offset + count)] + pieces(chunks.skip(1), 0, len - count)
    }
}

/// The chunks after they have been shortened or extended with zeros.
pub open spec fn truncated(chunks: Seq<Seq<u8>>, to: int) -> Seq<Seq<u8>>
    decreases chunks.len(),
{
    if chunks.len() == 0 {
        seq![zeros(to)]
    } else if chunks[0].len() < to {
        seq![chunks[0]] + truncated(chunks.skip(1), to - chunks[0].len())
    } else {
        seq![chunks[0].take(to)]
    }
}

/// The chunks after they have been extended with zeros. The last chunk gets as long as all of them
/// should be together.
pub open spec fn grown(chunks: Seq<Seq<u8>>, to: int) -> Seq<Seq<u8>> {
    if to <= joined(chunks).len() {
        chunks
    } else if chunks.len() > 0 {
        chunks.update(
            chunks.len() - 1,
            chunks.last() + zeros(to - chunks.last().len()),
        )
    } else {
        seq![zeros(to)]
    }
}

/// Adding a chunk.
pub proof fn lemma_joined_push(chunks: Seq<Seq<u8>>, chunk: Seq<u8>)
    ensures
        joined(chunks.push(chunk)) == joined(chunks) + chunk,
    decreases chunks.len(),
{
    if chunks.len() == 0 {
        assert(chunks.push(chunk).skip(1) =~= Seq::empty());
        assert(joined(Seq::<Seq<u8>>::empty()) =~= Seq::empty());
        assert(joined(chunks.push(chunk)) =~= joined(chunks) + chunk);
    } else {
        lemma_joined_push(chunks.skip(1), chunk);
        assert(chunks.push(chunk).skip(1) =~= chunks.skip(1).push(chunk));
        assert(joined(chunks.push(chunk)) =~= joined(chunks) + chunk);
    }
}

/// Chunks can be joined in two steps.
proof fn lemma_joined_split(chunks: Seq<Seq<u8>>, i: int)
    requires
        0 <= i <= chunks.len(),
    ensures
        joined(chunks) == joined(chunks.take(i)) + joined(chunks.skip(i)),
    decreases i,
{
    if i == 0 {
        assert(chunks.take(0) =~= Seq::empty());
        assert(chunks.skip(0) =~= chunks);
        assert(joined(chunks) =~= joined(chunks.take(i)) + joined(chunks.skip(i)));
    } else {
        lemma_joined_split(chunks, i - 1);
        assert(chunks.take(i) =~= chunks.take(i - 1).push(chunks[i - 1]));
        lemma_joined_push(chunks.take(i - 1), chunks[i - 1]);
        assert(chunks.skip(i - 1).skip(1) =~= chunks.skip(i));
        assert(joined(chunks) =~= joined(chunks.take(i)) + joined(chunks.skip(i)));
    }
}

/// The content of a file.
pub struct Buffer {
    contents: Vec<Vec<u8>>,
    snapshot: Option<FileSnapshot>,
}

impl View for Buffer {
    type V = Seq<u8>;

    closed spec fn view(&self) -> Seq<u8> {
        joined(self.chunks())
    }
}

impl Buffer {
    /// The chunks that the content is divided into.
    pub closed spec fn chunks(self) -> Seq<Seq<u8>> {
        Seq::new(self.contents@.len(), |i: int| self.contents@[i]@)
    }

    /// The length of the content is representable, and the snapshot is up to date.
    pub closed spec fn wf(self) -> bool {
        &&& joined(self.chunks()).len() <= usize::MAX
        &&& self.snapshot matches Some(snapshot) ==> snapshot@ == joined(self.chunks())
            && snapshot.base() is None
    }

    /// The content is that of the chunks one after the other.
    pub proof fn lemma_view(self)
        ensures
            self@ == joined(self.chunks()),
            self.wf() ==> self@.len() <= usize::MAX,
    {
    }

    /// Creates a buffer.
    pub fn new(content: &[u8]) -> (res: Self)
        ensures
            res.wf(),
            res@ == content@,
            res.chunks() == if content@.len() == 0 {
                Seq::<Seq<u8>>::empty()
            } else {
                seq![content@]
            },
    {
        let mut contents: Vec<Vec<u8>> = Vec::new();
        assert(content@.len() == content.len());
        if content.len() != 0 {
            let mut chunk: Vec<u8> = Vec::new();
            chunk.extend_from_slice(content);
            assert(chunk@ =~= content@);
            contents.push(chunk);
        }
        let res = Buffer { contents, snapshot: None };
        proof {
            if content@.len() == 0 {
                assert(res.chunks() =~= Seq::empty());
                assert(res@ =~= content@);
            } else {
                assert(res.chunks() =~= seq![content@]);
                assert(res.chunks().skip(1) =~= Seq::empty());
                assert(joined(Seq::<Seq<u8>>::empty()) =~= Seq::empty());
                assert(res@ =~= content@);
            }
        }
        res
    }

    /// The length of the content.
    pub fn len(&self) -> (res: usize)
        requires
            self.wf(),
        ensures
            res == self@.len(),
    {
        let mut len: usize = 0;
        let mut i: usize = 0;
        let ghost chunks = self.chunks();
        assert(chunks.take(0) =~= Seq::empty());
        while i < self.contents.len()
            invariant
                i <= chunks.len(),
                chunks == self.chunks(),
                chunks.len() == self.contents@.len(),
                joined(chunks).len() <= usize::MAX,
                len == joined(chunks.take(i as int)).len(),
            decreases chunks.len() - i,
        {
            proof {
                lemma_joined_split(chunks, i + 1);
                assert(chunks.take(i + 1) =~= chunks.take(i as int).push(chunks[i as int]));
                lemma_joined_push(chunks.take(i as int), chunks[i as int]);
                assert(chunks[i as int] == self.contents@[i as int]@);
            }
            len = len + self.contents[i].len();
            i = i + 1;
        }
        assert(chunks.take(i as int) =~= chunks);
        len
    }

    /// Returns the pieces of a range of the content.
    pub fn read(&self, offset: usize, len: usize) -> (res: Vec<&[u8]>)
        ensures
            Seq::new(res@.len(), |i: int| res@[i]@) == pieces(
                self.chunks(),
                offset as int,
                len as int,
            ),
    {
        let mut res: Vec<&[u8]> = Vec::new();
        let mut left_out: usize = offset;
        let mut left: usize = len;
        let mut i: usize = 0;
        let ghost chunks = self.chunks();
        let ghost all = pieces(chunks, offset as int, len as int);
        assert(chunks.skip(0) =~= chunks);
        assert(Seq::new(res@.len(), |i: int| res@[i]@) + all =~= all);
        while i < self.contents.len()
            invariant
                i <= chunks.len(),
                chunks == self.chunks(),
                chunks.len() == self.contents@.len(),
                all == Seq::new(res@.len(), |i: int| res@[i]@) + pieces(
                    chunks.skip(i as int),
                    left_out as int,
                    left as int,
                ),
            decreases chunks.len() - i,
        {
            assert(chunks.skip(i as int).skip(1) =~= chunks.skip(i + 1));
            let chunk: &Vec<u8> = &self.contents[i];
            assert(chunks[i as int] == chunk@);
            if chunk.len() <= left_out {
                left_out = left_out - chunk.len();
            } else {
                let rest: usize = chunk.len() - left_out;
                let count: usize = if rest < left {
                    rest
                } else {
                    left
                };
                let ghost taken = Seq::new(res@.len(), |i: int| res@[i]@);
                let ghost next = pieces(chunks.skip(i + 1), 0, left - count);
                let piece: &[u8] = slice_subrange(chunk.as_slice(), left_out, left_out + count);
                res.push(piece);
                left_out = 0;
                left = left - count;
                assert(Seq::new(res@.len(), |i: int| res@[i]@) =~= taken.push(piece@));
                assert(taken + (seq![piece@] + next) =~= taken.push(piece@) + next);
            }
            i = i + 1;
        }
        assert(pieces(chunks.skip(i as int), left_out as int, left as int) =~= Seq::empty());
        assert(Seq::new(res@.len(), |i: int| res@[i]@) =~= all);
        res
    }
}

/// The end of a range of some content.
pub open spec fn range_end(content_len: int, offset: int, len: int) -> int {
    if content_len <= offset {
        offset
    } else if content_len - offset < len {
        content_len
    } else {
        offset + len
    }
}

/// The pieces of a range make up the range.
pub proof fn law_pieces_make_up_range(chunks: Seq<Seq<u8>>, offset: int, len: int)
    requires
        0 <= offset,
        0 <= len,
    ensures
        offset <= joined(chunks).len() ==> joined(pieces(chunks, offset, len)) == joined(
            chunks,
        ).subrange(offset, range_end(joined(chunks).len() as int, offset, len)),
        offset >= joined(chunks).len() ==> joined(pieces(chunks, offset, len)).len() == 0,
    decreases chunks.len(),
{
    let content = joined(chunks);
    let all = pieces(chunks, offset, len);
    if chunks.len() > 0 {
        let rest = chunks.skip(1);
        if chunks[0].len() <= offset {
            law_pieces_make_up_range(rest, offset - chunks[0].len(), len);
            if offset <= content.len() {
                assert(joined(all) =~= content.subrange(
                    offset,
                    range_end(content.len() as int, offset, len),
                ));
            }
        } else {
            let left = chunks[0].len() - offset;
            let count = if left < len {
                left
            } else {
                len
            };
            law_pieces_make_up_range(rest, 0, len - count);
            let piece = chunks[0].subrange(offset, offset + count);
            let next = pieces(rest, 0, len - count);
            assert(all.skip(1) =~= next);
            assert(joined(all) == piece + joined(next));
            assert(joined(all) =~= content.subrange(
                offset,
                range_end(content.len() as int, offset, len),
            ));
        }
    } else {
        assert(joined(all) =~= Seq::empty());
        if offset == 0 {
            assert(joined(all) =~= content.subrange(0, 0));
        }
    }
}

/// The chunks after a range has been overwritten.
pub open spec fn overwritten(chunks: Seq<Seq<u8>>, offset: int, data: Seq<u8>) -> Seq<Seq<u8>>
    decreases chunks.len(),
{
    if chunks.len() == 0 {
        Seq::empty()
    } else if chunks[0].len() <= offset {
        seq![chunks[0]] + overwritten(chunks.skip(1), offset - chunks[0].len(), data)
    } else {
        let rest = chunks[0].len() - offset;
        let count = if rest < data.len() {
            rest
        } else {
            data.len() as int
        };
        seq![pagetable::overwrite(chunks[0], offset, data.take(count))] + overwritten(
            chunks.skip(1),
            0,
            data.skip(count),
        )
    }
}

/// Overwriting a range of the chunks overwrites the range of the content and keeps the lengths of
/// the chunks.
pub proof fn lemma_overwritten(chunks: Seq<Seq<u8>>, offset: int, data: Seq<u8>)
    requires
        0 <= offset,
        data.len() > 0 ==> offset + data.len() <= joined(chunks).len(),
    ensures
        joined(overwritten(chunks, offset, data)) == pagetable::overwrite(
            joined(chunks),
            offset,
            data,
        ),
        overwritten(chunks, offset, data).len() == chunks.len(),
        forall|i: int|
            0 <= i < chunks.len() ==> (#[trigger] overwritten(chunks, offset, data)[i]).len()
                == chunks[i].len(),
    decreases chunks.len(),
{
    let all = overwritten(chunks, offset, data);
    let content = joined(chunks);
    if chunks.len() == 0 {
        assert(joined(all) =~= pagetable::overwrite(content, offset, data));
    } else {
        let rest = chunks.skip(1);
        if chunks[0].len() <= offset {
            lemma_overwritten(rest, offset - chunks[0].len(), data);
            assert(all.skip(1) =~= overwritten(rest, offset - chunks[0].len(), data));
            assert(joined(all) =~= pagetable::overwrite(content, offset, data));
        } else {
            let left = chunks[0].len() - offset;
            let count = if left < data.len() {
                left
            } else {
                data.len() as int
            };
            lemma_overwritten(rest, 0, data.skip(count));
            assert(all.skip(1) =~= overwritten(rest, 0, data.skip(count)));
            assert(joined(all) =~= pagetable::overwrite(content, offset, data));
        }
    }
}

/// Copies a part of some data into a part of a chunk.
fn copy_into(chunk: &mut Vec<u8>, offset: usize, data: &[u8], from: usize, count: usize)
    requires
        offset + count <= old(chunk)@.len(),
        from + count <= data@.len(),
    ensures
        final(chunk)@ == pagetable::overwrite(
            old(chunk)@,
            offset as int,
            data@.subrange(from as int, from + count),
        ),
{
    let mut i: usize = 0;
    assert(data@.len() == data.len());
    assert(chunk@.len() == chunk.len());
    while i < count
        invariant
            i <= count,
            chunk@.len() == old(chunk)@.len() <= usize::MAX,
            offset + count <= chunk@.len(),
            from + count <= data@.len() <= usize::MAX,
            chunk@ == pagetable::overwrite(
                old(chunk)@,
                offset as int,
                data@.subrange(from as int, from + i),
            ),
        decreases count - i,
    {
        chunk.set(offset + i, data[from + i]);
        i = i + 1;
        assert(chunk@ =~= pagetable::overwrite(
            old(chunk)@,
            offset as int,
            data@.subrange(from as int, from + i),
        ));
    }
}

impl Buffer {
    /// Overwrites a range of the content, which has to exist.
    pub fn write(&mut self, offset: usize, data: &[u8])
        requires
            old(self).wf(),
            offset + data@.len() <= old(self)@.len(),
        ensures
            final(self).wf(),
            final(self)@ == pagetable::overwrite(old(self)@, offset as int, data@),
            final(self).chunks() == overwritten(old(self).chunks(), offset as int, data@),
    {
        self.snapshot = None;
        let ghost chunks = self.chunks();
        let ghost all = overwritten(chunks, offset as int, data@);
        proof {
            lemma_overwritten(chunks, offset as int, data@);
        }
        let len: usize = data.len();
        let mut left_out: usize = offset;
        let mut from: usize = 0;
        let mut i: usize = 0;
        assert(chunks.skip(0) =~= chunks);
        assert(data@.skip(0) =~= data@);
        assert(self.chunks().take(0) =~= Seq::empty());
        assert(self.chunks().take(0) + all =~= all);
        while i < self.contents.len()
            invariant
                self.snapshot is None,
                i <= chunks.len(),
                self.contents@.len() == chunks.len(),
                from <= len,
                len == data@.len(),
                forall|j: int| i <= j < chunks.len() ==> self.contents@[j]@ == #[trigger] chunks[j],
                all == self.chunks().take(i as int) + overwritten(
                    chunks.skip(i as int),
                    left_out as int,
                    data@.skip(from as int),
                ),
            decreases chunks.len() - i,
        {
            assert(chunks.skip(i as int).skip(1) =~= chunks.skip(i + 1));
            assert(chunks[i as int] == self.contents@[i as int]@);
            let ghost done = self.chunks().take(i as int);
            let chunk_len: usize = self.contents[i].len();
            if chunk_len <= left_out {
                left_out = left_out - chunk_len;
                assert(self.chunks().take(i + 1) =~= done.push(chunks[i as int]));
                let ghost next = overwritten(
                    chunks.skip(i + 1),
                    left_out as int,
                    data@.skip(from as int),
                );
                assert(done + (seq![chunks[i as int]] + next) =~= done.push(chunks[i as int]) + next);
            } else {
                let rest: usize = chunk_len - left_out;
                let count: usize = if rest < len - from {
                    rest
                } else {
                    len - from
                };
                copy_into(&mut self.contents[i], left_out, data, from, count);
                let ghost written = self.contents@[i as int]@;
                assert(data@.skip(from as int).take(count as int) =~= data@.subrange(
                    from as int,
                    from + count,
                ));
                assert(data@.skip(from as int).skip(count as int) =~= data@.skip(from + count));
                assert(self.chunks().take(i + 1) =~= done.push(written));
                let ghost next = overwritten(chunks.skip(i + 1), 0, data@.skip(from + count));
                assert(done + (seq![written] + next) =~= done.push(written) + next);
                left_out = 0;
                from = from + count;
            }
            i = i + 1;
        }
        assert(overwritten(
            chunks.skip(i as int),
            left_out as int,
            data@.skip(from as int),
        ) =~= Seq::empty());
        assert(self.chunks() =~= all);
    }

    /// Extends the content with zeros so that it has at least some length.
    pub fn grow(&mut self, to: usize)
        requires
            old(self).wf(),
            joined(grown(old(self).chunks(), to as int)).len() <= usize::MAX,
        ensures
            final(self).wf(),
            final(self).chunks() == grown(old(self).chunks(), to as int),
            final(self)@ == joined(grown(old(self).chunks(), to as int)),
    {
        let ghost chunks = self.chunks();
        let len: usize = self.len();
        if to <= len {
            return;
        }
        self.snapshot = None;
        let count: usize = self.contents.len();
        if count > 0 {
            proof {
                lemma_joined_split(chunks, chunks.len() - 1);
                assert(chunks.skip(chunks.len() - 1) =~= seq![chunks.last()]);
                assert(seq![chunks.last()].skip(1) =~= Seq::empty());
                assert(joined(Seq::<Seq<u8>>::empty()) =~= Seq::empty());
                assert(joined(seq![chunks.last()]) =~= chunks.last());
                assert(chunks.last() == self.contents@[count - 1]@);
            }
            let ghost last = chunks.last();
            self.contents[count - 1].resize(to, 0);
            assert(self.contents@[count - 1]@ =~= last + zeros(to - last.len()));
            assert(self.chunks() =~= grown(chunks, to as int));
            return;
        }
        let mut chunk: Vec<u8> = Vec::new();
        chunk.resize(to, 0);
        assert(chunk@ =~= zeros(to as int));
        self.contents.push(chunk);
        assert(chunks =~= Seq::empty());
        assert(self.chunks() =~= grown(chunks, to as int));
    }

    /// Shortens the content or extends it with zeros.
    ///
    /// The content can't be extended by a single byte.
    pub fn truncate(&mut self, to: usize)
        requires
            old(self).wf(),
            to != old(self)@.len() + 1,
        ensures
            final(self).wf(),
            final(self).chunks() == if to == old(self)@.len() {
                old(self).chunks()
            } else {
                truncated(old(self).chunks(), to as int)
            },
            final(self)@ == if to <= old(self)@.len() {
                old(self)@.take(to as int)
            } else {
                old(self)@ + zeros(to - old(self)@.len())
            },
    {
        let ghost chunks = self.chunks();
        let ghost all = truncated(chunks, to as int);
        let len: usize = self.len();
        proof {
            lemma_truncated(chunks, to as int);
        }
        if len == to {
            assert(self@.take(to as int) =~= self@);
            return;
        }
        self.snapshot = None;
        let mut remaining: usize = to;
        let mut i: usize = 0;
        assert(chunks.skip(0) =~= chunks);
        assert(chunks.take(0) + all =~= all);
        while i < self.contents.len()
            invariant
                self.snapshot is None,
                i <= chunks.len(),
                self.contents@.len() == chunks.len(),
                chunks == self.chunks(),
                chunks == old(self).chunks(),
                to != joined(chunks).len(),
                joined(all).len() == to,
                joined(all) == if to <= old(self)@.len() {
                    old(self)@.take(to as int)
                } else {
                    old(self)@ + zeros(to - old(self)@.len())
                },
                all == truncated(chunks, to as int),
                all == chunks.take(i as int) + truncated(chunks.skip(i as int), remaining as int),
            decreases chunks.len() - i,
        {
            assert(chunks[i as int] == self.contents@[i as int]@);
            assert(chunks.skip(i as int).skip(1) =~= chunks.skip(i + 1));
            if self.contents[i].len() < remaining {
                remaining = remaining - self.contents[i].len();
                assert(chunks.take(i + 1) =~= chunks.take(i as int).push(chunks[i as int]));
                let ghost next = truncated(chunks.skip(i + 1), remaining as int);
                assert(chunks.take(i as int) + (seq![chunks[i as int]] + next) =~= chunks.take(
                    i + 1,
                ) + next);
                i = i + 1;
            } else {
                self.contents[i].truncate(remaining);
                self.contents.truncate(i + 1);
                assert(self.chunks() =~= all);
                return;
            }
        }
        let mut chunk: Vec<u8> = Vec::new();
        chunk.resize(remaining, 0);
        assert(chunk@ =~= zeros(remaining as int));
        self.contents.push(chunk);
        assert(chunks.skip(i as int) =~= Seq::empty());
        assert(self.chunks() =~= all);
    }

    /// Copies a range of the content.
    fn collect(&self, offset: usize, len: usize) -> (content: Vec<u8>)
        requires
            self.wf(),
            offset <= self@.len(),
        ensures
            content@ == self@.subrange(
                offset as int,
                range_end(self@.len() as int, offset as int, len as int),
            ),
    {
        let mut content: Vec<u8> = Vec::new();
        let parts: Vec<&[u8]> = self.read(offset, len);
        let ghost all = Seq::new(parts@.len(), |i: int| parts@[i]@);
        let mut i: usize = 0;
        assert(all.take(0) =~= Seq::empty());
        assert(content@ =~= joined(all.take(0)));
        while i < parts.len()
            invariant
                i <= parts@.len(),
                all == Seq::new(parts@.len(), |i: int| parts@[i]@),
                content@ == joined(all.take(i as int)),
            decreases parts@.len() - i,
        {
            let ghost before = content@;
            content.extend_from_slice(parts[i]);
            assert(content@ =~= before + all[i as int]);
            proof {
                assert(all.take(i + 1) =~= all.take(i as int).push(all[i as int]));
                lemma_joined_push(all.take(i as int), all[i as int]);
            }
            i = i + 1;
        }
        proof {
            assert(all.take(i as int) =~= all);
            law_pieces_make_up_range(self.chunks(), offset as int, len as int);
        }
        content
    }

    /// Returns the content at this point in time.
    pub fn to_snapshot(&mut self) -> (res: FileSnapshot)
        requires
            old(self).wf(),
        ensures
            final(self).wf(),
            final(self)@ == old(self)@,
            final(self).chunks() == old(self).chunks(),
            res@ == old(self)@,
            res.base() is None,
    {
        match &self.snapshot {
            Some(snapshot) => {
                return snapshot.clone();
            },
            None => {},
        }
        let ghost chunks = self.chunks();
        let len: usize = self.len();
        let content: Vec<u8> = self.collect(0, len);
        assert(content@ =~= self@);
        let snapshot: FileSnapshot = FileSnapshot::new(content);
        self.snapshot = Some(snapshot.clone());
        assert(self.chunks() =~= chunks);
        snapshot
    }
}

/// Truncating the chunks truncates the content.
pub proof fn lemma_truncated(chunks: Seq<Seq<u8>>, to: int)
    requires
        0 <= to,
    ensures
        joined(truncated(chunks, to)) == if to <= joined(chunks).len() {
            joined(chunks).take(to)
        } else {
            joined(chunks) + zeros(to - joined(chunks).len())
        },
    decreases chunks.len(),
{
    let all = truncated(chunks, to);
    let content = joined(chunks);
    let expected = if to <= content.len() {
        content.take(to)
    } else {
        content + zeros(to - content.len())
    };
    assert(joined(Seq::<Seq<u8>>::empty()) =~= Seq::empty());
    if chunks.len() == 0 {
        assert(all.skip(1) =~= Seq::empty());
        assert(joined(all) =~= expected);
    } else if chunks[0].len() < to {
        lemma_truncated(chunks.skip(1), to - chunks[0].len());
        assert(all.skip(1) =~= truncated(chunks.skip(1), to - chunks[0].len()));
        assert(joined(all) =~= expected);
    } else {
        assert(all.skip(1) =~= Seq::empty());
        assert(joined(all) =~= expected);
    }
}

/// A regular file.
pub struct TmpFsFile {
    /// The number of the node.
    pub ino: u64,
    /// The content.
    pub contents: Buffer,
    /// Who may do what with the file.
    pub mode: FileMode,
    /// When the file was accessed last.
    pub atime: Timespec,
    /// When the content was changed last.
    pub mtime: Timespec,
    /// When the file was changed last.
    pub ctime: Timespec,
}

/// What a read from a file returns.
pub open spec fn file_read(content: Seq<u8>, offset: int, len: int) -> Result<Seq<u8>, Error> {
    if offset > content.len() {
        Err(Error::Inval)
    } else {
        Ok(content.subrange(offset, range_end(content.len() as int, offset, len)))
    }
}

/// The chunks of a file after data has been written to it.
pub open spec fn file_written(chunks: Seq<Seq<u8>>, offset: int, data: Seq<u8>) -> Seq<Seq<u8>> {
    overwritten(grown(chunks, offset + data.len()), offset, data)
}

/// Whether the content of a file stays representable if data is written to it.
pub open spec fn can_write(chunks: Seq<Seq<u8>>, offset: int, len: int) -> bool {
    offset + len <= usize::MAX && joined(grown(chunks, offset + len)).len() <= usize::MAX
}

/// Growing the chunks makes the content long enough and keeps it.
pub proof fn lemma_grown(chunks: Seq<Seq<u8>>, to: int)
    requires
        0 <= to,
    ensures
        joined(grown(chunks, to)).len() >= to,
        joined(grown(chunks, to)).len() >= joined(chunks).len(),
        joined(grown(chunks, to)).take(joined(chunks).len() as int) == joined(chunks),
        forall|i: int|
            joined(chunks).len() <= i < joined(grown(chunks, to)).len() ==> #[trigger] joined(
                grown(chunks, to),
            )[i] == 0,
        chunks.len() <= 1 && to > joined(chunks).len() ==> joined(grown(chunks, to)).len() == to,
{
    let content = joined(chunks);
    let new = grown(chunks, to);
    assert(joined(Seq::<Seq<u8>>::empty()) =~= Seq::empty());
    if to <= content.len() {
        assert(content.take(content.len() as int) =~= content);
    } else if chunks.len() > 0 {
        let last = chunks.len() - 1;
        lemma_joined_split(chunks, last);
        lemma_joined_split(new, last);
        assert(new.take(last) =~= chunks.take(last));
        assert(chunks.skip(last) =~= seq![chunks[last]]);
        assert(new.skip(last) =~= seq![new[last]]);
        assert(seq![chunks[last]].skip(1) =~= Seq::empty());
        assert(seq![new[last]].skip(1) =~= Seq::empty());
        assert(joined(seq![chunks[last]]) =~= chunks[last]);
        assert(joined(seq![new[last]]) =~= new[last]);
        assert(joined(new) =~= content + zeros(to - chunks[last].len()));
        assert(joined(new).take(content.len() as int) =~= content);
        if chunks.len() == 1 {
            assert(chunks.take(0) =~= Seq::empty());
        }
    } else {
        assert(new.skip(1) =~= Seq::empty());
        assert(joined(new) =~= zeros(to));
        assert(joined(new).take(content.len() as int) =~= content);
    }
}

impl TmpFsFile {
    /// The content is well-formed.
    pub open spec fn wf(self) -> bool {
        self.contents.wf()
    }

    /// The file is the same apart from its content.
    pub open spec fn same_file(self, other: Self) -> bool {
        &&& self.ino == other.ino
        &&& self.mode == other.mode
        &&& self.atime == other.atime
        &&& self.mtime == other.mtime
        &&& self.ctime == other.ctime
    }

    /// Creates a file.
    pub fn new(mode: FileMode, content: &[u8], ino: u64, now: Timespec) -> (res: Self)
        ensures
            res.wf(),
            res.ino == ino,
            res.mode == mode,
            res.contents@ == content@,
            res.contents.chunks().len() <= 1,
            res.atime == now,
            res.mtime == now,
            res.ctime == now,
    {
        TmpFsFile {
            ino,
            contents: Buffer::new(content),
            mode,
            atime: now,
            mtime: now,
            ctime: now,
        }
    }

    /// What is known about the file.
    pub fn stat(&self) -> (res: Stat)
        requires
            self.wf(),
        ensures
            res == (Stat {
                dev: 0,
                ino: self.ino,
                nlink: 1,
                mode: FileTypeAndMode { ty: FileType::File, mode: self.mode },
                uid: 0,
                gid: 0,
                rdev: 0,
                size: (self.contents@.len() as usize) as i64,
                blksize: 0,
                blocks: 0,
                atime: self.atime,
                mtime: self.mtime,
                ctime: self.ctime,
            }),
    {
        let mode: FileTypeAndMode = FileTypeAndMode::new(FileType::File, self.mode);
        let size: i64 = self.contents.len() as i64;
        // FIXME: Fill in more values.
        Stat {
            dev: 0,
            ino: self.ino,
            nlink: 1,
            mode,
            uid: 0,
            gid: 0,
            rdev: 0,
            size,
            blksize: 0,
            blocks: 0,
            atime: self.atime,
            mtime: self.mtime,
            ctime: self.ctime,
        }
    }

    /// Changes who may do what with the file.
    pub fn set_mode(&mut self, mode: FileMode)
        ensures
            *final(self) == (TmpFsFile { mode, ..*old(self) }),
    {
        self.mode = mode;
    }

    /// Returns the content at this point in time.
    pub fn read_snapshot(&mut self) -> (res: FileSnapshot)
        requires
            old(self).wf(),
        ensures
            final(self).wf(),
            final(self).same_file(*old(self)),
            final(self).contents@ == old(self).contents@,
            final(self).contents.chunks() == old(self).contents.chunks(),
            res@ == old(self).contents@,
            res.base() is None,
    {
        self.contents.to_snapshot()
    }

    /// Reads from the file into a buffer. Returns the number of bytes that have been read.
    pub fn read(&self, offset: usize, buf: &mut [u8]) -> (res: Result<usize, Error>)
        requires
            self.wf(),
        ensures
            match (
                res,
                file_read(self.contents@, offset as int, old(buf)@.len() as int),
            ) {
                (Ok(read), Ok(data)) => read == data.len() && final(buf)@ == pagetable::overwrite(
                    old(buf)@,
                    0,
                    data,
                ),
                (Err(err), Err(expected)) => err == expected && final(buf)@ == old(buf)@,
                _ => false,
            },
    {
        if offset > self.contents.len() {
            return Err(Error::Inval);
        }
        let data: Vec<u8> = self.contents.collect(offset, buf.len());
        let mut i: usize = 0;
        while i < data.len()
            invariant
                i <= data@.len() <= buf@.len(),
                buf@ == pagetable::overwrite(old(buf)@, 0, data@.take(i as int)),
            decreases data@.len() - i,
        {
            buf[i] = data[i];
            i = i + 1;
            assert(buf@ =~= pagetable::overwrite(old(buf)@, 0, data@.take(i as int)));
        }
        assert(data@.take(i as int) =~= data@);
        Ok(data.len())
    }

    /// Reads from the file into memory. Returns the number of bytes that have been read.
    pub fn read_to_user(
        &self,
        offset: usize,
        vm: &mut ActiveVirtualMemory<'_>,
        pointer: VirtAddr,
        len: usize,
    ) -> (res: Result<usize, Error>)
        requires
            self.wf(),
            old(vm).wf(),
            file_read(self.contents@, offset as int, len as int) matches Ok(data) ==> {
                &&& data.len() > 0 ==> addr::canonical_form(pointer@ + data.len() - 1) is Some
                &&& old(vm).memory().can_access(true, pointer@ as int, data.len() as int)
            },
        ensures
            final(vm).wf(),
            final(vm).same_space(*old(vm)),
            *final(final(vm).virtual_memory) == *final(old(vm).virtual_memory),
            match file_read(self.contents@, offset as int, len as int) {
                Ok(data) => {
                    &&& res matches Ok(read) ==> read == data.len()
                    &&& memory::write_result(
                        old(vm).memory(),
                        pointer@ as int,
                        data,
                        final(vm).memory(),
                        access_result(res),
                    )
                },
                Err(err) => res == Err::<usize, Error>(err) && final(vm).memory() == old(
                    vm,
                ).memory(),
            },
    {
        if offset > self.contents.len() {
            return Err(Error::Inval);
        }
        let data: Vec<u8> = self.contents.collect(offset, len);
        match vm.write(pointer, data.as_slice()) {
            Ok(()) => Ok(data.len()),
            Err(err) => Err(err),
        }
    }

    /// Writes data to the file. A gap before the data is filled with zeros. Returns the number of
    /// bytes that have been written.
    pub fn write(&mut self, offset: usize, buf: &[u8]) -> (res: Result<usize, Error>)
        requires
            old(self).wf(),
            can_write(old(self).contents.chunks(), offset as int, buf@.len() as int),
        ensures
            final(self).wf(),
            final(self).same_file(*old(self)),
            res == Ok::<usize, Error>(buf@.len() as usize),
            final(self).contents.chunks() == file_written(
                old(self).contents.chunks(),
                offset as int,
                buf@,
            ),
    {
        let len: usize = buf.len();
        proof {
            lemma_grown(self.contents.chunks(), offset + len);
        }
        self.contents.grow(offset + len);
        self.contents.write(offset, buf);
        Ok(len)
    }

    /// Writes data from memory to the file. A gap before the data is filled with zeros. Returns the
    /// number of bytes that have been written.
    ///
    /// If the memory can only be read in part, that part is written.
    pub fn write_from_user(
        &mut self,
        offset: usize,
        vm: &mut ActiveVirtualMemory<'_>,
        pointer: VirtAddr,
        len: usize,
    ) -> (res: Result<usize, Error>)
        requires
            old(self).wf(),
            can_write(old(self).contents.chunks(), offset as int, len as int),
            old(vm).wf(),
            len > 0 ==> addr::canonical_form(pointer@ + len - 1) is Some,
            old(vm).memory().can_access(false, pointer@ as int, len as int),
        ensures
            final(self).wf(),
            final(self).same_file(*old(self)),
            final(vm).wf(),
            final(vm).same_space(*old(vm)),
            *final(final(vm).virtual_memory) == *final(old(vm).virtual_memory),
            write_from_user_result(
                old(self).contents.chunks(),
                offset as int,
                old(vm).memory(),
                pointer@ as int,
                len as int,
                final(self).contents.chunks(),
                final(vm).memory(),
                res,
            ),
    {
        let ghost chunks = self.contents.chunks();
        proof {
            lemma_grown(chunks, offset + len);
        }
        self.contents.grow(offset + len);
        proof {
            self.contents.lemma_view();
        }
        let mut data: Vec<u8> = self.contents.collect(offset, len);
        let res = vm.read(pointer, data.as_mut_slice());
        self.contents.write(offset, data.as_slice());
        match res {
            Ok(()) => Ok(len),
            Err(err) => Err(err),
        }
    }

    /// Writes data to the end of the file. Returns the number of bytes that have been written.
    pub fn append(&mut self, buf: &[u8]) -> (res: Result<usize, Error>)
        requires
            old(self).wf(),
            can_write(
                old(self).contents.chunks(),
                old(self).contents@.len() as int,
                buf@.len() as int,
            ),
        ensures
            final(self).wf(),
            final(self).same_file(*old(self)),
            res == Ok::<usize, Error>(buf@.len() as usize),
            final(self).contents.chunks() == file_written(
                old(self).contents.chunks(),
                old(self).contents@.len() as int,
                buf@,
            ),
    {
        let offset: usize = self.contents.len();
        self.write(offset, buf)
    }

    /// Writes data from memory to the end of the file. Returns the number of bytes that have been
    /// written.
    pub fn append_from_user(
        &mut self,
        vm: &mut ActiveVirtualMemory<'_>,
        pointer: VirtAddr,
        len: usize,
    ) -> (res: Result<usize, Error>)
        requires
            old(self).wf(),
            can_write(
                old(self).contents.chunks(),
                old(self).contents@.len() as int,
                len as int,
            ),
            old(vm).wf(),
            len > 0 ==> addr::canonical_form(pointer@ + len - 1) is Some,
            old(vm).memory().can_access(false, pointer@ as int, len as int),
        ensures
            final(self).wf(),
            final(self).same_file(*old(self)),
            final(vm).wf(),
            final(vm).same_space(*old(vm)),
            *final(final(vm).virtual_memory) == *final(old(vm).virtual_memory),
            write_from_user_result(
                old(self).contents.chunks(),
                old(self).contents@.len() as int,
                old(vm).memory(),
                pointer@ as int,
                len as int,
                final(self).contents.chunks(),
                final(vm).memory(),
                res,
            ),
    {
        let offset: usize = self.contents.len();
        self.write_from_user(offset, vm, pointer, len)
    }

    /// Shortens the file or extends it with zeros. It can't be extended by a single byte.
    pub fn truncate(&mut self, len: u64) -> (res: Result<(), Error>)
        requires
            old(self).wf(),
            len <= usize::MAX,
            len != old(self).contents@.len() + 1,
        ensures
            final(self).wf(),
            final(self).same_file(*old(self)),
            res == Ok::<(), Error>(()),
            final(self).contents.chunks() == if len == old(self).contents@.len() {
                old(self).contents.chunks()
            } else {
                truncated(old(self).contents.chunks(), len as int)
            },
            final(self).contents@ == if len <= old(self).contents@.len() {
                old(self).contents@.take(len as int)
            } else {
                old(self).contents@ + zeros(len - old(self).contents@.len())
            },
    {
        self.contents.truncate(len as usize);
        Ok(())
    }
}

/// Whether the access to memory succeeded.
pub open spec fn access_result(res: Result<usize, Error>) -> Result<(), Error> {
    match res {
        Ok(_) => Ok(()),
        Err(err) => Err(err),
    }
}

/// The outcome of writing data from memory to a file.
pub open spec fn write_from_user_result(
    chunks: Seq<Seq<u8>>,
    offset: int,
    memory: Memory,
    address: int,
    len: int,
    new_chunks: Seq<Seq<u8>>,
    new_memory: Memory,
    res: Result<usize, Error>,
) -> bool {
    let content = joined(grown(chunks, offset + len)).subrange(offset, offset + len);
    let access = access_result(res);
    exists|data: Seq<u8>| #[trigger]
        memory::read_result(
            memory,
            address,
            content,
            new_memory,
            data,
            access,
        ) && new_chunks == overwritten(grown(chunks, offset + len), offset, data) && (
        res matches Ok(written) ==> written == len)
}

/// What has been written to a file is read back. The rest of the file is kept, and a gap reads as
/// zeros.
pub proof fn law_file_read_after_write(chunks: Seq<Seq<u8>>, offset: int, data: Seq<u8>, i: int)
    requires
        0 <= offset,
        0 <= i < joined(file_written(chunks, offset, data)).len(),
    ensures
        file_read(joined(file_written(chunks, offset, data)), offset, data.len() as int) == Ok::<
            Seq<u8>,
            Error,
        >(data),
        !(offset <= i < offset + data.len()) && i < joined(chunks).len() ==> joined(
            file_written(chunks, offset, data),
        )[i] == joined(chunks)[i],
        !(offset <= i < offset + data.len()) && i >= joined(chunks).len() ==> joined(
            file_written(chunks, offset, data),
        )[i] == 0,
{
    let larger = grown(chunks, offset + data.len());
    lemma_grown(chunks, offset + data.len());
    lemma_overwritten(larger, offset, data);
    let content = joined(file_written(chunks, offset, data));
    assert(content == pagetable::overwrite(joined(larger), offset, data));
    assert(content.subrange(
        offset,
        range_end(content.len() as int, offset, data.len() as int),
    ) =~= data);
    if i < joined(chunks).len() {
        assert(joined(larger).take(joined(chunks).len() as int)[i] == joined(chunks)[i]);
    }
}

/// A directory.
pub struct TmpFsDir {
    /// The number of the node.
    pub ino: u64,
    /// The number of the parent's node.
    pub parent: u64,
    /// Who may do what with the directory.
    pub mode: FileMode,
    /// The nodes in the directory.
    pub items: NameMap,
    /// When the directory was accessed last.
    pub atime: Timespec,
    /// When the content was changed last.
    pub mtime: Timespec,
    /// When the directory was changed last.
    pub ctime: Timespec,
}

/// A symbolic link.
pub struct TmpFsSymlink {
    /// The number of the node.
    pub ino: u64,
    /// Where the link leads.
    pub target: Vec<u8>,
}

/// What came of the creation of a file.
pub enum CreatedFile {
    /// A file has been created.
    New(TmpFsFile),
    /// There is a file already.
    Existing(DynINode),
    /// There is a symbolic link. The file has to be created where it leads.
    Link(DynINode),
}

impl TmpFsDir {
    /// The names are in order.
    pub open spec fn wf(self) -> bool {
        self.items.wf()
    }

    /// The node with a name.
    pub open spec fn node(self, name: Seq<u8>) -> Option<DynINode> {
        names::node(self.items@, name)
    }

    /// The directory is the same apart from the nodes in it.
    pub open spec fn same_dir(self, other: Self) -> bool {
        &&& self.ino == other.ino
        &&& self.parent == other.parent
        &&& self.mode == other.mode
        &&& self.atime == other.atime
        &&& self.mtime == other.mtime
        &&& self.ctime == other.ctime
    }

    /// The directory is the same apart from the node with a name.
    pub open spec fn same_except(self, other: Self, name: Seq<u8>) -> bool {
        &&& self.same_dir(other)
        &&& forall|n: Seq<u8>| n != name ==> #[trigger] self.node(n) == other.node(n)
    }

    /// Creates the root directory. It is its own parent.
    pub fn root(mode: FileMode, ino: u64, now: Timespec) -> (res: Self)
        ensures
            res.wf(),
            res.ino == ino,
            res.parent == ino,
            res.mode == mode,
            res.items@.len() == 0,
            res.atime == now,
            res.mtime == now,
            res.ctime == now,
    {
        TmpFsDir::new(ino, mode, ino, now)
    }

    /// Creates a directory.
    pub fn new(parent: u64, mode: FileMode, ino: u64, now: Timespec) -> (res: Self)
        ensures
            res.wf(),
            res.ino == ino,
            res.parent == parent,
            res.mode == mode,
            res.items@.len() == 0,
            res.atime == now,
            res.mtime == now,
            res.ctime == now,
    {
        TmpFsDir {
            ino,
            parent,
            mode,
            items: NameMap::new(),
            atime: now,
            mtime: now,
            ctime: now,
        }
    }

    /// What is known about the directory.
    pub fn stat(&self) -> (res: Stat)
        ensures
            res == (Stat {
                dev: 0,
                ino: self.ino,
                nlink: 1,
                mode: FileTypeAndMode { ty: FileType::Dir, mode: self.mode },
                uid: 0,
                gid: 0,
                rdev: 0,
                size: 0,
                blksize: 0,
                blocks: 0,
                atime: self.atime,
                mtime: self.mtime,
                ctime: self.ctime,
            }),
    {
        let mode: FileTypeAndMode = FileTypeAndMode::new(FileType::Dir, self.mode);
        // FIXME: Fill in more values.
        Stat {
            dev: 0,
            ino: self.ino,
            nlink: 1,
            mode,
            uid: 0,
            gid: 0,
            rdev: 0,
            size: 0,
            blksize: 0,
            blocks: 0,
            atime: self.atime,
            mtime: self.mtime,
            ctime: self.ctime,
        }
    }

    /// Changes who may do what with the directory.
    pub fn set_mode(&mut self, mode: FileMode)
        ensures
            *final(self) == (TmpFsDir { mode, ..*old(self) }),
    {
        self.mode = mode;
    }

    /// Places a node in the directory. If there is another node with the name, it is replaced.
    pub fn mount(&mut self, file_name: Vec<u8>, node: DynINode) -> (res: Result<(), Error>)
        requires
            old(self).wf(),
        ensures
            final(self).wf(),
            res == Ok::<(), Error>(()),
            final(self).node(file_name@) == Some(node),
            final(self).same_except(*old(self), file_name@),
    {
        self.items.insert(file_name, node);
        Ok(())
    }

    /// The parent, if it still exists.
    pub fn parent(&self, exists: bool) -> (res: Result<u64, Error>)
        ensures
            res == (if exists {
                Ok::<u64, Error>(self.parent)
            } else {
                Err(Error::NoEnt)
            }),
    {
        if exists {
            Ok(self.parent)
        } else {
            Err(Error::NoEnt)
        }
    }

    /// Finds the node with a name.
    pub fn get_node(&self, path_segment: &Vec<u8>) -> (res: Result<DynINode, Error>)
        requires
            self.wf(),
        ensures
            res == (match self.node(path_segment@) {
                Some(node) => Ok::<DynINode, Error>(node),
                None => Err(Error::NoEnt),
            }),
    {
        match self.items.get(path_segment) {
            Some(node) => Ok(node),
            None => Err(Error::NoEnt),
        }
    }

    /// Creates a directory in the directory.
    pub fn create_dir(&mut self, file_name: Vec<u8>, mode: FileMode, ino: u64, now: Timespec) -> (res:
        Result<TmpFsDir, Error>)
        requires
            old(self).wf(),
        ensures
            final(self).wf(),
            final(self).same_except(*old(self), file_name@),
            match old(self).node(file_name@) {
                Some(node) => res == Err::<TmpFsDir, Error>(Error::Exist) && final(self).node(
                    file_name@,
                ) == Some(node),
                None => {
                    &&& res matches Ok(dir)
                    &&& dir.wf()
                    &&& dir.ino == ino
                    &&& dir.parent == old(self).ino
                    &&& dir.mode == mode
                    &&& dir.items@.len() == 0
                    &&& dir.atime == now
                    &&& dir.mtime == now
                    &&& dir.ctime == now
                    &&& final(self).node(file_name@) == Some(
                        (DynINode { ino, ty: FileType::Dir }),
                    )
                },
            },
    {
        match self.items.get(&file_name) {
            Some(_) => Err(Error::Exist),
            None => {
                let dir: TmpFsDir = TmpFsDir::new(self.ino, mode, ino, now);
                self.items.insert(file_name, DynINode { ino, ty: FileType::Dir });
                Ok(dir)
            },
        }
    }

    /// Creates a file in the directory, or finds the one that exists unless a new one is needed.
    pub fn create_file(
        &mut self,
        path_segment: Vec<u8>,
        mode: FileMode,
        create_new: bool,
        ino: u64,
        now: Timespec,
    ) -> (res: Result<CreatedFile, Error>)
        requires
            old(self).wf(),
        ensures
            final(self).wf(),
            final(self).same_except(*old(self), path_segment@),
            match old(self).node(path_segment@) {
                Some(node) => {
                    &&& final(self).node(path_segment@) == Some(node)
                    &&& res == if create_new {
                        Err::<CreatedFile, Error>(Error::Exist)
                    } else if node.ty == FileType::Link {
                        Ok(CreatedFile::Link(node))
                    } else if node.ty == FileType::File {
                        Ok(CreatedFile::Existing(node))
                    } else {
                        Err(Error::Exist)
                    }
                },
                None => {
                    &&& res matches Ok(CreatedFile::New(file))
                    &&& file.wf()
                    &&& file.ino == ino
                    &&& file.mode == mode
                    &&& file.contents@.len() == 0
                    &&& file.contents.chunks().len() <= 1
                    &&& file.atime == now
                    &&& file.mtime == now
                    &&& file.ctime == now
                    &&& final(self).node(path_segment@) == Some(
                        (DynINode { ino, ty: FileType::File }),
                    )
                },
            },
    {
        match self.items.get(&path_segment) {
            Some(node) => {
                if create_new {
                    return Err(Error::Exist);
                }
                if node.ty == FileType::Link {
                    return Ok(CreatedFile::Link(node));
                }
                if node.ty != FileType::File {
                    return Err(Error::Exist);
                }
                Ok(CreatedFile::Existing(node))
            },
            None => {
                let file: TmpFsFile = TmpFsFile::new(mode, &[], ino, now);
                self.items.insert(path_segment, DynINode { ino, ty: FileType::File });
                Ok(CreatedFile::New(file))
            },
        }
    }

    /// Creates a symbolic link in the directory. If there is another node with the name, it is
    /// replaced unless a new one is needed.
    pub fn create_link(
        &mut self,
        file_name: Vec<u8>,
        target: Vec<u8>,
        create_new: bool,
        ino: u64,
    ) -> (res: Result<TmpFsSymlink, Error>)
        requires
            old(self).wf(),
        ensures
            final(self).wf(),
            final(self).same_except(*old(self), file_name@),
            if create_new && old(self).node(file_name@) is Some {
                &&& res == Err::<TmpFsSymlink, Error>(Error::Exist)
                &&& final(self).node(file_name@) == old(self).node(file_name@)
            } else {
                &&& res matches Ok(link)
                &&& link.ino == ino
                &&& link.target == target
                &&& final(self).node(file_name@) == Some((DynINode { ino, ty: FileType::Link }))
            },
    {
        match self.items.get(&file_name) {
            Some(_) => {
                if create_new {
                    return Err(Error::Exist);
                }
            },
            None => {},
        }
        self.items.insert(file_name, DynINode { ino, ty: FileType::Link });
        Ok(TmpFsSymlink { ino, target })
    }

    /// Gives a node another name. If there is another node with the name, it is replaced.
    pub fn hard_link(&mut self, file_name: Vec<u8>, node: DynINode) -> (res: Result<(), Error>)
        requires
            old(self).wf(),
        ensures
            final(self).wf(),
            res == Ok::<(), Error>(()),
            final(self).node(file_name@) == Some(node),
            final(self).same_except(*old(self), file_name@),
    {
        self.items.insert(file_name, node);
        Ok(())
    }

    /// Lists the entries of the directory: itself, its parent and the nodes in the order of their
    /// names.
    pub fn list_entries(&self) -> (res: Vec<DirEntry>)
        ensures
            res@.len() == self.items@.len() + 2,
            res@[0].ino == 0 && res@[0].ty == FileType::Dir && res@[0].name is Dot,
            res@[1].ino == 0 && res@[1].ty == FileType::Dir && res@[1].name is DotDot,
            forall|i: int|
                0 <= i < self.items@.len() ==> entry_for(
                    #[trigger] res@[i + 2],
                    self.items@[i].0,
                    self.items@[i].1,
                ),
    {
        let mut entries: Vec<DirEntry> = Vec::new();
        entries.push(DirEntry { ino: 0, ty: FileType::Dir, name: DirEntryName::Dot });
        entries.push(DirEntry { ino: 0, ty: FileType::Dir, name: DirEntryName::DotDot });
        let mut i: usize = 0;
        while i < self.items.len()
            invariant
                i <= self.items@.len(),
                entries@.len() == i + 2,
                entries@[0].ino == 0 && entries@[0].ty == FileType::Dir && entries@[0].name is Dot,
                entries@[1].ino == 0 && entries@[1].ty == FileType::Dir
                    && entries@[1].name is DotDot,
                forall|j: int|
                    0 <= j < i ==> entry_for(
                        #[trigger] entries@[j + 2],
                        self.items@[j].0,
                        self.items@[j].1,
                    ),
            decreases self.items@.len() - i,
        {
            let node: DynINode = self.items.node_at(i);
            entries.push(
                DirEntry {
                    ino: node.ino,
                    ty: node.ty,
                    name: DirEntryName::FileName(self.items.name_at(i)),
                },
            );
            i = i + 1;
        }
        entries
    }

    /// Removes a node that isn't a directory.
    pub fn delete_non_dir(&mut self, file_name: Vec<u8>) -> (res: Result<(), Error>)
        requires
            old(self).wf(),
        ensures
            final(self).wf(),
            final(self).same_except(*old(self), file_name@),
            res == (match old(self).node(file_name@) {
                None => Err::<(), Error>(Error::NoEnt),
                Some(node) => if node.ty == FileType::Dir {
                    Err(Error::IsDir)
                } else {
                    Ok(())
                },
            }),
            final(self).node(file_name@) == if res is Ok {
                None
            } else {
                old(self).node(file_name@)
            },
    {
        match self.items.get(&file_name) {
            None => Err(Error::NoEnt),
            Some(node) => {
                if node.ty == FileType::Dir {
                    return Err(Error::IsDir);
                }
                self.items.remove(&file_name);
                Ok(())
            },
        }
    }

    /// Removes a directory.
    pub fn delete_dir(&mut self, file_name: Vec<u8>) -> (res: Result<(), Error>)
        requires
            old(self).wf(),
        ensures
            final(self).wf(),
            final(self).same_except(*old(self), file_name@),
            res == (match old(self).node(file_name@) {
                None => Err::<(), Error>(Error::NoEnt),
                Some(node) => if node.ty != FileType::Dir {
                    Err(Error::IsDir)
                } else {
                    Ok(())
                },
            }),
            final(self).node(file_name@) == if res is Ok {
                None
            } else {
                old(self).node(file_name@)
            },
    {
        match self.items.get(&file_name) {
            None => Err(Error::NoEnt),
            Some(node) => {
                if node.ty != FileType::Dir {
                    return Err(Error::IsDir);
                }
                self.items.remove(&file_name);
                Ok(())
            },
        }
    }
}

/// Whether an entry of a directory is for a node.
pub open spec fn entry_for(entry: DirEntry, name: Seq<u8>, node: DynINode) -> bool {
    &&& entry.ino == node.ino
    &&& entry.ty == node.ty
    &&& entry.name matches DirEntryName::FileName(bytes) && bytes@ == name
}

impl TmpFsSymlink {
    /// What is known about the link.
    pub fn stat(&self) -> (res: Stat)
        ensures
            res == (Stat {
                dev: 0,
                ino: self.ino,
                nlink: 1,
                mode: FileTypeAndMode { ty: FileType::Link, mode: args::all_permitted() },
                uid: 0,
                gid: 0,
                rdev: 0,
                size: 0,
                blksize: 0,
                blocks: 0,
                atime: args::time_zero(),
                mtime: args::time_zero(),
                ctime: args::time_zero(),
            }),
    {
        Stat {
            dev: 0,
            ino: self.ino,
            nlink: 1,
            mode: FileTypeAndMode::new(FileType::Link, FileMode::all()),
            uid: 0,
            gid: 0,
            rdev: 0,
            size: 0,
            blksize: 0,
            blocks: 0,
            atime: Timespec::zero(),
            mtime: Timespec::zero(),
            ctime: Timespec::zero(),
        }
    }

    /// A link can't be opened.
    pub fn open(&self) -> (res: Result<(), Error>)
        ensures
            res == Err::<(), Error>(Error::Loop),
    {
        Err(Error::Loop)
    }

    /// Where the link leads.
    pub fn read_link(&self) -> (res: Result<Vec<u8>, Error>)
        ensures
            res matches Ok(target) && target@ == self.target@,
    {
        let target: Vec<u8> = self.target.clone();
        assert(target@ =~= self.target@);
        Ok(target)
    }
}

/// A read returns the content from the offset on, as much of it as fits and as there is. It's refused if
/// the offset is past the end.
pub proof fn law_file_read(content: Seq<u8>, offset: int, len: int, i: int)
    requires
        0 <= offset,
        0 <= len,
    ensures
        offset > content.len() ==> file_read(content, offset, len) == Err::<Seq<u8>, Error>(
            Error::Inval,
        ),
        offset <= content.len() ==> {
            &&& file_read(content, offset, len) matches Ok(data)
            &&& data.len() <= len
            &&& data.len() <= content.len() - offset
            &&& data.len() == len || data.len() == content.len() - offset
            &&& 0 <= i < data.len() ==> data[i] == content[offset + i]
        },
{
}

/// The pieces of a range of a file are the bytes of the range in order.
pub proof fn law_pieces(chunks: Seq<Seq<u8>>, offset: int, len: int, i: int)
    requires
        0 <= offset,
        0 <= len,
    ensures
        ({
            let content = joined(chunks);
            let read = joined(pieces(chunks, offset, len));
            &&& offset >= content.len() ==> read.len() == 0
            &&& offset < content.len() ==> read.len() <= len && read.len() <= content.len() - offset
            &&& offset < content.len() ==> read.len() == len || read.len() == content.len() - offset
            &&& 0 <= i < read.len() ==> read[i] == content[offset + i]
        }),
{
    law_pieces_make_up_range(chunks, offset, len);
}

/// A file that is divided into chunks holds the bytes of the chunks one after the other.
pub proof fn law_chunks(chunks: Seq<Seq<u8>>, chunk: Seq<u8>, i: int)
    ensures
        joined(Seq::<Seq<u8>>::empty()).len() == 0,
        joined(chunks.push(chunk)).len() == joined(chunks).len() + chunk.len(),
        0 <= i < joined(chunks).len() ==> joined(chunks.push(chunk))[i] == joined(chunks)[i],
        0 <= i < chunk.len() ==> joined(chunks.push(chunk))[joined(chunks).len() + i] == chunk[i],
{
    lemma_joined_push(chunks, chunk);
}

/// After a write, the data is in the file at the offset, what else was in the file is still there, and a
/// gap before the data is filled with zeros. A file in one chunk is then as long as it was, or ends
/// with the data.
pub proof fn law_file_write(chunks: Seq<Seq<u8>>, offset: int, data: Seq<u8>, i: int)
    requires
        0 <= offset,
    ensures
        ({
            let content = joined(chunks);
            let new = joined(file_written(chunks, offset, data));
            &&& new.len() >= offset + data.len()
            &&& new.len() >= content.len()
            &&& content.len() >= offset + data.len() ==> new.len() == content.len()
            &&& chunks.len() <= 1 && content.len() < offset + data.len() ==> new.len() == offset
                + data.len()
            &&& offset <= i < offset + data.len() ==> new[i] == data[i - offset]
            &&& 0 <= i < content.len() && (i < offset || offset + data.len() <= i) ==> new[i]
                == content[i]
            &&& content.len() <= i < new.len() && (i < offset || offset + data.len() <= i)
                ==> new[i] == 0
        }),
{
    let larger = grown(chunks, offset + data.len());
    lemma_grown(chunks, offset + data.len());
    lemma_overwritten(larger, offset, data);
    if 0 <= i < joined(chunks).len() {
        assert(joined(larger).take(joined(chunks).len() as int)[i] == joined(chunks)[i]);
    }
}

/// A write at the end of a file appends the data.
pub proof fn law_file_append(chunks: Seq<Seq<u8>>, data: Seq<u8>)
    requires
        chunks.len() <= 1,
    ensures
        joined(file_written(chunks, joined(chunks).len() as int, data)) == joined(chunks) + data,
{
    let content = joined(chunks);
    let new = joined(file_written(chunks, content.len() as int, data));
    law_file_write(chunks, content.len() as int, data, 0);
    assert forall|i: int| 0 <= i < new.len() implies new[i] == (content + data)[i] by {
        law_file_write(chunks, content.len() as int, data, i);
    }
    assert(new =~= content + data);
}

/// Truncating a file makes it as long as asked for. What is left of the content is kept, and what is new
/// is zero.
pub proof fn law_file_truncate(chunks: Seq<Seq<u8>>, to: int, i: int)
    requires
        0 <= to,
    ensures
        joined(truncated(chunks, to)).len() == to,
        0 <= i < to && i < joined(chunks).len() ==> joined(truncated(chunks, to))[i] == joined(
            chunks,
        )[i],
        joined(chunks).len() <= i < to ==> joined(truncated(chunks, to))[i] == 0,
        zeros(to).len() == to,
        0 <= i < to ==> zeros(to)[i] == 0,
{
    lemma_truncated(chunks, to);
}

/// Writing from memory to a file succeeds if and only if all of the memory may be read. The content of the
/// memory is then in the file at the offset.
pub proof fn law_file_write_from_memory(
    chunks: Seq<Seq<u8>>,
    offset: int,
    memory: Memory,
    address: int,
    len: int,
    new_chunks: Seq<Seq<u8>>,
    new_memory: Memory,
    res: Result<usize, Error>,
    i: int,
)
    requires
        0 <= offset,
        0 < len,
        0 <= address,
        address + len <= u64::MAX + 1,
        write_from_user_result(
            chunks,
            offset,
            memory,
            address,
            len,
            new_chunks,
            new_memory,
            res,
        ),
    ensures
        res is Ok <==> forall|page: u64|
            #![trigger memory.pages.contains_key(page)]
            #![trigger memory.pages[page]]
            page % 4096 == 0 && address < page + 4096 && page < address + len
                ==> memory.pages.contains_key(page) && memory.pages[page].permissions.read,
        res matches Ok(written) ==> written == len,
        res matches Err(err) ==> err == Error::Fault,
        res is Ok && 0 <= i < len ==> joined(new_chunks)[offset + i] == memory.byte(address + i),
        joined(new_chunks).len() >= offset + len,
        0 <= i < joined(chunks).len() && (i < offset || offset + len <= i) ==> joined(new_chunks)[i]
            == joined(chunks)[i],
        joined(chunks).len() <= i < joined(new_chunks).len() && (i < offset || offset + len <= i)
            ==> joined(new_chunks)[i] == 0,
{
    let larger = grown(chunks, offset + len);
    lemma_grown(chunks, offset + len);
    let content = joined(larger).subrange(offset, offset + len);
    let access = access_result(res);
    let data = choose|data: Seq<u8>| #[trigger]
        memory::read_result(
            memory,
            address,
            content,
            new_memory,
            data,
            access,
        ) && new_chunks == overwritten(larger, offset, data) && (res matches Ok(written) ==> written
            == len);
    memory::access::law_read_outcome(memory, address, content, new_memory, data, access);
    lemma_overwritten(larger, offset, data);
    if 0 <= i < joined(chunks).len() {
        assert(joined(larger).take(joined(chunks).len() as int)[i] == joined(chunks)[i]);
    }
    if res is Ok && 0 <= i < len {
        assert(joined(new_chunks)[offset + i] == data[i]);
        let everything = forall|page: u64|
            #![trigger memory.pages.contains_key(page)]
            #![trigger memory.pages[page]]
            page % 4096 == 0 && address < page + 4096 && page < address + len
                ==> memory.pages.contains_key(page) && memory.pages[page].permissions.read;
        assert(everything);
        assert(data[i] == memory.byte(address + i));
    }
}

/// A write can be represented if the content doesn't get too long.
pub proof fn law_file_can_be_written(chunks: Seq<Seq<u8>>, offset: int, len: int)
    requires
        0 <= offset,
        0 <= len,
        offset + len <= usize::MAX,
        joined(chunks).len() <= usize::MAX,
        chunks.len() <= 1 || offset + len <= joined(chunks).len(),
    ensures
        can_write(chunks, offset, len),
{
    lemma_grown(chunks, offset + len);
}

/// The access to memory succeeds or fails as the operation on the file does.
pub proof fn law_access_results(count: usize, err: Error)
    ensures
        access_result(Ok::<usize, Error>(count)) == Ok::<(), Error>(()),
        access_result(Err::<usize, Error>(err)) == Err::<(), Error>(err),
{
}

impl TmpFsFile {
    /// If only the content of a file has changed, its number, its mode and its times are the same.
    pub proof fn law_same_file(self, other: Self)
        ensures
            self.same_file(other) <==> self.ino == other.ino && self.mode == other.mode
                && self.atime == other.atime && self.mtime == other.mtime && self.ctime
                == other.ctime,
    {
    }
}

impl TmpFsDir {
    /// If only the node with a name has changed, all other names stand for the same nodes, and the
    /// directory has the same number, parent, mode and times.
    pub proof fn law_same_directory(self, other: Self, name: Seq<u8>, another: Seq<u8>)
        requires
            self.same_except(other, name),
            another != name,
        ensures
            self.ino == other.ino && self.parent == other.parent && self.mode == other.mode,
            self.atime == other.atime && self.mtime == other.mtime && self.ctime == other.ctime,
            self.node(another) == other.node(another),
    {
    }

    /// A name in a directory stands for the node that has been placed there under the name.
    pub proof fn law_directory_nodes(self, name: Seq<u8>, i: int)
        requires
            self.wf(),
        ensures
            0 <= i < self.items@.len() ==> self.node(self.items@[i].0) == Some(self.items@[i].1),
            self.node(name) is Some <==> exists|k: int|
                0 <= k < self.items@.len() && (#[trigger] self.items@[k]).0 == name,
    {
        names::law_named_nodes(self.items@, name, i);
    }
}

/// The entry of a directory for a node has the node's name, number and type.
pub proof fn law_directory_entries(entry: DirEntry, name: Seq<u8>, node: DynINode)
    requires
        entry_for(entry, name, node),
    ensures
        entry.ino == node.ino,
        entry.ty == node.ty,
        entry.name is FileName,
        entry.name->FileName_0@ == name,
{
}

/// If a file in several chunks has to grow, its last chunk gets as long as the whole file should be.
pub proof fn law_growth_of_chunks(chunks: Seq<Seq<u8>>, to: int)
    requires
        chunks.len() > 0,
        to > joined(chunks).len(),
    ensures
        grown(chunks, to).len() == chunks.len(),
        grown(chunks, to).last().len() == to,
        grown(chunks, to).last().take(chunks.last().len() as int) == chunks.last(),
        grown(chunks, to).drop_last() == chunks.drop_last(),
{
    let last = chunks.len() - 1;
    lemma_joined_split(chunks, last);
    assert(chunks.skip(last) =~= seq![chunks[last]]);
    assert(seq![chunks[last]].skip(1) =~= Seq::empty());
    assert(joined(Seq::<Seq<u8>>::empty()) =~= Seq::empty());
    assert(joined(seq![chunks[last]]) =~= chunks[last]);
    assert(grown(chunks, to).last().take(chunks.last().len() as int) =~= chunks.last());
    assert(grown(chunks, to).drop_last() =~= chunks.drop_last());
}

} // verus!
