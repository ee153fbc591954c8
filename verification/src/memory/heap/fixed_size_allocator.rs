//! An allocator for objects of up to a fixed size.
//!
//! Memory is requested in blocks, which are divided into entries. The entries of a block that
//! aren't in use form a list. Memory is referred to by its address.
use vstd::prelude::*;

use crate::addr;

verus! {

/// The size and alignment of a block.
pub const BLOCK_SIZE: u64 = 0x20_0000;

/// The size of what is kept at the start of a block.
pub const HEADER_SIZE: u64 = 32;

/// The alignment of an entry.
pub const ENTRY_ALIGN: u64 = 8;

/// The number of entries that a block has at least.
pub const MIN_ENTRIES: u64 = 128;

/// The size of the largest objects for which a block has the number of entries that it has at least.
pub const MAX_SIZE: usize = 0x3ff8;

/// The size of an entry for objects of some size. An entry can hold an address and is aligned.
pub open spec fn entry_size(n: int) -> int {
    if n <= 8 {
        8
    } else {
        (n + 7) / 8 * 8
    }
}

/// The address of an entry.
pub open spec fn entry_address(n: int, base: int, index: int) -> int {
    base + HEADER_SIZE + index * entry_size(n)
}

/// The number of entries that fit into a block.
pub open spec fn num_entries(n: int, len: int) -> int {
    (len - HEADER_SIZE) / entry_size(n)
}

/// The size and alignment of an object.
#[derive(Clone, Copy, PartialEq, Eq, Structural, Debug)]
pub struct Layout {
    /// The size in bytes.
    pub size: u64,
    /// The alignment in bytes.
    pub align: u64,
}

/// The memory of an object.
#[derive(Clone, Copy, PartialEq, Eq, Structural, Debug)]
pub struct ObjectMemory {
    /// The address of the first byte.
    pub address: u64,
    /// The number of bytes.
    pub len: u64,
}

/// A block of memory.
pub struct Block<const N: usize> {
    base: u64,
    len: u64,
    free_list: Vec<u64>,
    used: u64,
}

/// Returns the size of an entry.
fn size_of_entry(n: usize) -> (res: u64)
    requires
        n <= MAX_SIZE,
    ensures
        res == entry_size(n as int),
{
    if n <= 8 {
        8
    } else {
        (n as u64 + 7) / 8 * 8
    }
}

impl<const N: usize> Block<N> {
    /// The address of the block.
    pub closed spec fn base_address(self) -> int {
        self.base as int
    }

    /// The length of the block.
    pub closed spec fn length(self) -> int {
        self.len as int
    }

    /// The entries that aren't in use. The last one is used next.
    pub closed spec fn free(self) -> Seq<u64> {
        self.free_list@
    }

    /// The number of entries that are in use.
    pub closed spec fn used_entries(self) -> int {
        self.used as int
    }

    /// Whether an address is that of an entry of the block.
    pub open spec fn is_entry(self, address: int) -> bool {
        exists|i: int|
            0 <= i < num_entries(N as int, self.length()) && address == #[trigger] entry_address(
                N as int,
                self.base_address(),
                i,
            )
    }

    /// Whether an address is that of an entry that is in use.
    pub open spec fn is_used(self, address: u64) -> bool {
        self.is_entry(address as int) && !self.free().contains(address)
    }

    /// The block is aligned, has room for at least one entry, the list consists of different
    /// entries of the block, and all other entries are in use.
    pub open spec fn wf(self) -> bool {
        &&& N <= MAX_SIZE
        &&& self.base_address() % BLOCK_SIZE as int == 0
        &&& 0 <= self.base_address()
        &&& HEADER_SIZE + entry_size(N as int) <= self.length() <= BLOCK_SIZE
        &&& self.base_address() + self.length() <= u64::MAX
        &&& self.free().no_duplicates()
        &&& forall|i: int|
            0 <= i < self.free().len() ==> self.is_entry((#[trigger] self.free()[i]) as int)
        &&& self.used_entries() + self.free().len() == num_entries(N as int, self.length())
    }

    /// The memory that has to be requested for a block.
    pub fn layout() -> (res: Layout)
        requires
            N <= MAX_SIZE,
        ensures
            res.size == BLOCK_SIZE,
            res.align == BLOCK_SIZE,
            HEADER_SIZE + MIN_ENTRIES * entry_size(N as int) <= res.size,
    {
        let size: u64 = HEADER_SIZE + MIN_ENTRIES * size_of_entry(N);
        // The size is rounded up to the alignment.
        let size: u64 = (size + (BLOCK_SIZE - 1)) / BLOCK_SIZE * BLOCK_SIZE;
        Layout { size, align: BLOCK_SIZE }
    }

    /// Divides memory into entries, none of which are in use.
    pub fn new(base: u64, len: u64) -> (res: Self)
        requires
            N <= MAX_SIZE,
            base % BLOCK_SIZE == 0,
            HEADER_SIZE + MIN_ENTRIES * entry_size(N as int) <= len <= BLOCK_SIZE,
            base + len <= u64::MAX,
        ensures
            res.wf(),
            res.base_address() == base,
            res.length() == len,
            res.used_entries() == 0,
            res.free().len() >= MIN_ENTRIES,
            res.free() == Seq::new(
                num_entries(N as int, len as int) as nat,
                |i: int| entry_address(N as int, base as int, i) as u64,
            ),
    {
        let size: u64 = size_of_entry(N);
        let count: u64 = (len - HEADER_SIZE) / size;
        let ghost expected = Seq::new(
            count as nat,
            |i: int| entry_address(N as int, base as int, i) as u64,
        );
        let mut free_list: Vec<u64> = Vec::new();
        let mut next: u64 = base + HEADER_SIZE;
        let mut i: u64 = 0;
        assert(count == num_entries(N as int, len as int));
        assert(count * size <= len - HEADER_SIZE) by {
            vstd::arithmetic::div_mod::lemma_fundamental_div_mod(
                len - HEADER_SIZE,
                size as int,
            );
            vstd::arithmetic::mul::lemma_mul_is_commutative(count as int, size as int);
        }
        assert(128 <= count) by {
            vstd::arithmetic::div_mod::lemma_div_is_ordered(
                MIN_ENTRIES * size,
                len - HEADER_SIZE,
                size as int,
            );
            vstd::arithmetic::div_mod::lemma_div_multiples_vanish(128, size as int);
            vstd::arithmetic::mul::lemma_mul_is_commutative(128, size as int);
        }
        assert(entry_address(N as int, base as int, 0) == next);
        while i < count
            invariant
                i <= count,
                size == entry_size(N as int),
                count * size <= len - HEADER_SIZE,
                base + len <= u64::MAX,
                next == entry_address(N as int, base as int, i as int),
                expected == Seq::new(
                    count as nat,
                    |i: int| entry_address(N as int, base as int, i) as u64,
                ),
                free_list@ == expected.take(i as int),
            decreases count - i,
        {
            assert((i + 1) * size <= count * size) by (nonlinear_arith)
                requires
                    i + 1 <= count,
                    size >= 0,
            ;
            assert((i + 1) * size == i * size + size) by (nonlinear_arith);
            free_list.push(next);
            assert(next == expected[i as int]);
            next = next + size;
            i = i + 1;
            assert(free_list@ =~= expected.take(i as int));
        }
        assert(free_list@ =~= expected);
        let res = Block { base, len, free_list, used: 0 };
        proof {
            assert forall|i: int| 0 <= i < res.free().len() implies res.is_entry(
                (#[trigger] res.free()[i]) as int,
            ) by {
                lemma_entry_in_block(N as int, base as int, len as int, i);
                assert(res.free()[i] == expected[i]);
                assert(res.free()[i] == entry_address(N as int, res.base_address(), i));
            }
            assert forall|i: int, j: int|
                0 <= i < j < res.free().len() implies res.free()[i] != res.free()[j] by {
                lemma_entry_in_block(N as int, base as int, len as int, i);
                lemma_entry_in_block(N as int, base as int, len as int, j);
                lemma_entries_apart(N as int, base as int, i, j);
            }
        }
        res
    }

    /// Returns whether an address is in the block.
    pub fn contains(&self, ptr: u64) -> (res: bool)
        requires
            self.wf(),
        ensures
            res == (self.base_address() <= ptr < self.base_address() + self.length()),
    {
        self.base <= ptr && ptr < self.base + self.len
    }

    /// Takes an entry off the list.
    pub fn allocate(&mut self, layout: Layout) -> (res: Option<ObjectMemory>)
        requires
            old(self).wf(),
            layout.size <= N,
            layout.align <= ENTRY_ALIGN,
            layout.align != 0,
            layout.size % layout.align == 0,
        ensures
            final(self).wf(),
            final(self).base_address() == old(self).base_address(),
            final(self).length() == old(self).length(),
            old(self).free().len() == 0 ==> res is None && *final(self) == *old(self),
            old(self).free().len() > 0 ==> {
                &&& res == Some(
                    (ObjectMemory { address: old(self).free().last(), len: layout.size }),
                )
                &&& final(self).free() == old(self).free().drop_last()
                &&& final(self).used_entries() == old(self).used_entries() + 1
                &&& final(self).is_used(res->0.address)
                &&& !old(self).is_used(res->0.address)
            },
    {
        if self.free_list.len() == 0 {
            return None;
        }
        let ghost before = self.free_list@;
        assert(self.is_entry(before.last() as int)) by {
            assert(self.free()[before.len() - 1] == before.last());
        }
        assert(num_entries(N as int, self.len as int) <= self.len) by {
            lemma_entry_count(N as int, self.len as int);
        }
        let ptr: u64 = self.free_list.pop().unwrap();
        self.used = self.used + 1;
        proof {
            assert forall|i: int| 0 <= i < self.free().len() implies self.is_entry(
                (#[trigger] self.free()[i]) as int,
            ) by {
                assert(old(self).is_entry(old(self).free()[i] as int));
                lemma_same_entries(*old(self), *self, self.free()[i] as int);
            }
            lemma_same_entries(*old(self), *self, ptr as int);
        }
        Some(ObjectMemory { address: ptr, len: layout.size })
    }

    /// Puts an entry back on the list.
    pub fn deallocate(&mut self, ptr: u64)
        requires
            old(self).wf(),
            old(self).is_used(ptr),
        ensures
            final(self).wf(),
            final(self).base_address() == old(self).base_address(),
            final(self).length() == old(self).length(),
            final(self).free() == old(self).free().push(ptr),
            final(self).used_entries() == old(self).used_entries() - 1,
            !final(self).is_used(ptr),
    {
        proof {
            lemma_used_is_counted(*self, ptr, ptr);
        }
        self.used = self.used - 1;
        self.free_list.push(ptr);
        proof {
            let free = self.free();
            assert(free[free.len() - 1] == ptr);
            assert forall|i: int| 0 <= i < free.len() implies self.is_entry(
                (#[trigger] free[i]) as int,
            ) by {
                if i < free.len() - 1 {
                    assert(old(self).is_entry(old(self).free()[i] as int));
                }
                lemma_same_entries(*old(self), *self, free[i] as int);
            }
            assert forall|i: int, j: int| 0 <= i < j < free.len() implies free[i] != free[j] by {
                if j == free.len() - 1 {
                    assert(old(self).free()[i] == free[i]);
                }
            }
        }
    }

    /// Returns whether the block can be freed: no entry is in use.
    pub fn try_free(&self) -> (res: bool)
        requires
            self.wf(),
        ensures
            res == (self.used_entries() == 0),
    {
        self.used == 0
    }
}

/// The entries of a block depend on its address and its length only.
proof fn lemma_same_entries<const N: usize>(a: Block<N>, b: Block<N>, address: int)
    requires
        a.base_address() == b.base_address(),
        a.length() == b.length(),
    ensures
        a.is_entry(address) == b.is_entry(address),
{
    if a.is_entry(address) {
        let i = choose|i: int|
            0 <= i < num_entries(N as int, a.length()) && address == #[trigger] entry_address(
                N as int,
                a.base_address(),
                i,
            );
        assert(address == entry_address(N as int, b.base_address(), i));
    }
    if b.is_entry(address) {
        let i = choose|i: int|
            0 <= i < num_entries(N as int, b.length()) && address == #[trigger] entry_address(
                N as int,
                b.base_address(),
                i,
            );
        assert(address == entry_address(N as int, a.base_address(), i));
    }
}

/// A block can't have more entries than bytes.
proof fn lemma_entry_count(n: int, len: int)
    requires
        HEADER_SIZE <= len,
    ensures
        0 <= num_entries(n, len) <= len,
{
    vstd::arithmetic::div_mod::lemma_div_is_ordered_by_denominator(
        len - HEADER_SIZE,
        1,
        entry_size(n),
    );
    vstd::arithmetic::div_mod::lemma_div_pos_is_pos(len - HEADER_SIZE, entry_size(n));
}

/// An entry is inside of its block and aligned.
proof fn lemma_entry_in_block(n: int, base: int, len: int, i: int)
    requires
        HEADER_SIZE <= len,
        0 <= i < num_entries(n, len),
        0 <= base,
        base % ENTRY_ALIGN as int == 0,
    ensures
        base + HEADER_SIZE <= entry_address(n, base, i),
        entry_address(n, base, i) + entry_size(n) <= base + len,
        entry_address(n, base, i) % ENTRY_ALIGN as int == 0,
{
    let size = entry_size(n);
    let count = num_entries(n, len);
    vstd::arithmetic::div_mod::lemma_fundamental_div_mod(len - HEADER_SIZE, size);
    assert((i + 1) * size <= count * size && (i + 1) * size == i * size + size && 0 <= i * size
        && count * size == size * count) by (nonlinear_arith)
        requires
            0 <= i,
            i + 1 <= count,
            size > 0,
    ;
    assert(size % 8 == 0);
    assert((i * size) % 8 == 0) by {
        let k = size / 8;
        assert(size == 8 * k);
        assert(i * (8 * k) == 8 * (i * k)) by (nonlinear_arith);
        assert((8 * (i * k)) % 8 == 0);
    }
}

/// Different entries don't overlap.
proof fn lemma_entries_apart(n: int, base: int, i: int, j: int)
    requires
        0 <= i < j,
    ensures
        entry_address(n, base, i) + entry_size(n) <= entry_address(n, base, j),
{
    let size = entry_size(n);
    assert(i * size + size <= j * size) by (nonlinear_arith)
        requires
            i + 1 <= j,
            size > 0,
    ;
}

/// The addresses of the first entries of a block.
spec fn first_entries(n: int, base: int, count: int) -> Set<u64>
    decreases count,
{
    if count <= 0 {
        Set::empty()
    } else {
        first_entries(n, base, count - 1).insert(entry_address(n, base, count - 1) as u64)
    }
}

proof fn lemma_first_entries(n: int, base: int, count: int)
    ensures
        first_entries(n, base, count).finite(),
        count >= 0 ==> first_entries(n, base, count).len() <= count,
        forall|i: int|
            0 <= i < count ==> first_entries(n, base, count).contains(
                #[trigger] entry_address(n, base, i) as u64,
            ),
    decreases count,
{
    if count > 0 {
        lemma_first_entries(n, base, count - 1);
    }
}

/// If entries aren't on the list, the list isn't complete.
proof fn lemma_used_is_counted<const N: usize>(block: Block<N>, ptr: u64, other: u64)
    requires
        block.wf(),
        block.is_used(ptr),
        block.is_used(other),
    ensures
        block.used_entries() > 0,
        other != ptr ==> block.used_entries() > 1,
{
    let n = N as int;
    let base = block.base_address();
    let count = num_entries(n, block.length());
    let entries = first_entries(n, base, count);
    lemma_first_entries(n, base, count);
    lemma_entry_count(n, block.length());
    let free = block.free().to_set();
    block.free().unique_seq_to_set();
    let used = entries.remove(ptr).remove(other);
    assert(free.subset_of(used)) by {
        assert forall|a: u64| #[trigger] free.contains(a) implies used.contains(a) by {
            let i = choose|i: int| 0 <= i < block.free().len() && block.free()[i] == a;
            assert(block.is_entry(block.free()[i] as int));
            assert(block.free().contains(a));
        }
    }
    vstd::set_lib::lemma_len_subset(free, used);
    assert(entries.contains(ptr) && entries.contains(other));
}

/// The blocks of an allocator.
pub struct FixedSizeAllocatorState<const N: usize> {
    blocks: Vec<Block<N>>,
    /// The index of the last block where memory was allocated from.
    last_block_idx: usize,
}

impl<const N: usize> FixedSizeAllocatorState<N> {
    /// Creates a state without blocks.
    pub fn new() -> (res: Self)
        ensures
            res.block_list() == Seq::<Block<N>>::empty(),
            res.last_block() == 0,
    {
        FixedSizeAllocatorState { blocks: Vec::new(), last_block_idx: 0 }
    }

    /// The blocks.
    pub closed spec fn block_list(self) -> Seq<Block<N>> {
        self.blocks@
    }

    /// The index of the block that is tried first.
    pub closed spec fn last_block(self) -> int {
        self.last_block_idx as int
    }
}

/// An allocator for objects of up to a fixed size.
pub struct FixedSizeAllocator<const N: usize> {
    blocks: FixedSizeAllocatorState<N>,
}

/// What has to be done to allocate memory.
#[derive(Clone, Copy, PartialEq, Eq, Structural, Debug)]
pub enum Allocation {
    /// The allocator isn't meant for such objects.
    Refused,
    /// Memory has been allocated.
    Allocated(ObjectMemory),
    /// No block has room. Another block has to be added.
    NeedsBlock(Layout),
}

/// Which block is tried at some point: the one that was used last is tried first, then the ones
/// that follow it, then the ones before it.
pub open spec fn tried(last: int, len: int, i: int) -> int {
    if last + i < len {
        last + i
    } else if last < len {
        last + i - len
    } else {
        i
    }
}

/// Whether a block is the first one with room.
pub open spec fn is_first_with_room<const N: usize>(
    blocks: Seq<Block<N>>,
    last: int,
    i: int,
) -> bool {
    &&& 0 <= i < blocks.len()
    &&& blocks[tried(last, blocks.len() as int, i)].free().len() > 0
    &&& forall|j: int|
        0 <= j < i ==> blocks[#[trigger] tried(last, blocks.len() as int, j)].free().len() == 0
}

/// Whether no block has room.
pub open spec fn all_full<const N: usize>(blocks: Seq<Block<N>>) -> bool {
    forall|i: int| 0 <= i < blocks.len() ==> (#[trigger] blocks[i]).free().len() == 0
}

/// Advances an index, starting over at the end.
fn wrapping_index(last: usize, i: usize, len: usize) -> (res: usize)
    requires
        i < len,
    ensures
        res == (last + i) % len as int,
{
    let rest: usize = last % len;
    proof {
        vstd::arithmetic::div_mod::lemma_add_mod_noop(last as int, i as int, len as int);
        vstd::arithmetic::div_mod::lemma_small_mod(i as nat, len as nat);
        vstd::arithmetic::div_mod::lemma_mod_twice(last as int, len as int);
        if rest + i < len {
            vstd::arithmetic::div_mod::lemma_small_mod((rest + i) as nat, len as nat);
        } else {
            vstd::arithmetic::div_mod::lemma_small_mod((rest + i - len) as nat, len as nat);
            vstd::arithmetic::div_mod::lemma_mod_add_multiples_vanish(rest + i - len, len as int);
        }
    }
    if i < len - rest {
        rest + i
    } else {
        i - (len - rest)
    }
}

impl<const N: usize> FixedSizeAllocator<N> {
    /// The blocks.
    pub closed spec fn blocks(self) -> Seq<Block<N>> {
        self.blocks.block_list()
    }

    /// The index of the block that is tried first.
    pub closed spec fn last(self) -> int {
        self.blocks.last_block()
    }

    /// The blocks are well-formed and different.
    pub open spec fn wf(self) -> bool {
        &&& N <= MAX_SIZE
        &&& 0 <= self.last() <= usize::MAX
        &&& forall|i: int| 0 <= i < self.blocks().len() ==> (#[trigger] self.blocks()[i]).wf()
        &&& forall|i: int, j: int|
            0 <= i < j < self.blocks().len() ==> (#[trigger] self.blocks()[i]).base_address() != (
            #[trigger] self.blocks()[j]).base_address()
    }

    /// Whether an address is that of memory that is in use.
    pub open spec fn is_used(self, address: u64) -> bool {
        exists|i: int|
            0 <= i < self.blocks().len() && (#[trigger] self.blocks()[i]).is_used(address)
    }

    /// Whether memory can be used for another block: it is aligned, has the right length and isn't
    /// that of a block already.
    pub open spec fn is_new_block(self, base: u64, len: u64) -> bool {
        &&& base % BLOCK_SIZE == 0
        &&& HEADER_SIZE + MIN_ENTRIES * entry_size(N as int) <= len <= BLOCK_SIZE
        &&& base + len <= u64::MAX
        &&& forall|i: int|
            0 <= i < self.blocks().len() ==> (#[trigger] self.blocks()[i]).base_address() != base
    }

    /// Creates an allocator without blocks.
    pub fn new() -> (res: Self)
        requires
            N <= MAX_SIZE,
        ensures
            res.wf(),
            res.blocks() == Seq::<Block<N>>::empty(),
            res.last() == 0,
    {
        FixedSizeAllocator { blocks: FixedSizeAllocatorState::new() }
    }

    /// Returns whether objects fit into an entry.
    pub fn can_allocate(&self, layout: Layout) -> (res: bool)
        ensures
            res == (layout.size <= N && layout.align <= ENTRY_ALIGN),
    {
        layout.size <= N as u64 && layout.align <= ENTRY_ALIGN
    }

    /// Allocates memory for an object from a block that has room.
    pub fn allocate(&mut self, layout: Layout) -> (res: Allocation)
        requires
            old(self).wf(),
            layout.size <= N && layout.align <= ENTRY_ALIGN ==> layout.align != 0 && layout.size
                % layout.align == 0,
        ensures
            final(self).wf(),
            final(self).blocks().len() == old(self).blocks().len(),
            layout.size > N || layout.align > ENTRY_ALIGN ==> res == Allocation::Refused,
            layout.size <= N && layout.align <= ENTRY_ALIGN && all_full(old(self).blocks()) ==> res
                == Allocation::NeedsBlock((Layout { size: BLOCK_SIZE, align: BLOCK_SIZE })),
            !(res is Allocated) ==> final(self).blocks() == old(self).blocks() && final(self).last()
                == old(self).last(),
            layout.size <= N && layout.align <= ENTRY_ALIGN && !all_full(old(self).blocks())
                ==> exists|i: int| #[trigger]
                is_first_with_room(old(self).blocks(), old(self).last(), i) && allocated_from(
                    *old(self),
                    i,
                    layout,
                    *final(self),
                    res,
                ),
    {
        if !self.can_allocate(layout) {
            return Allocation::Refused;
        }
        let len: usize = self.blocks.blocks.len();
        let last: usize = self.blocks.last_block_idx;
        let ghost before = self.blocks();
        let mut i: usize = 0;
        while i < len
            invariant
                self.wf(),
                before == old(self).blocks(),
                before == self.blocks(),
                self.last() == old(self).last(),
                len == before.len(),
                last == self.last(),
                i <= len,
                layout.size <= N,
                layout.align <= ENTRY_ALIGN,
                layout.align != 0,
                layout.size % layout.align == 0,
                forall|j: int|
                    0 <= j < i ==> before[#[trigger] tried(last as int, len as int, j)].free().len()
                        == 0,
            decreases len - i,
        {
            let index: usize = if last < len && i < len - last {
                last + i
            } else if last < len {
                i - (len - last)
            } else {
                i
            };
            assert(index == tried(last as int, len as int, i as int));
            assert(self.blocks()[index as int].wf());
            match self.blocks.blocks[index].allocate(layout) {
                Some(memory) => {
                    self.blocks.last_block_idx = wrapping_index(last, i, len);
                    proof {
                        assert(self.blocks() =~= before.update(
                            index as int,
                            self.blocks()[index as int],
                        ));
                        assert(is_first_with_room(before, last as int, i as int));
                        assert(allocated_from(
                            *old(self),
                            i as int,
                            layout,
                            *self,
                            Allocation::Allocated(memory),
                        ));
                        assert(!all_full(before)) by {
                            assert(before[index as int].free().len() > 0);
                        }
                    }
                    return Allocation::Allocated(memory);
                },
                None => {
                    assert(self.blocks() =~= before);
                },
            }
            i = i + 1;
        }
        assert(all_full(before)) by {
            assert forall|k: int| 0 <= k < before.len() implies (#[trigger] before[k]).free().len()
                == 0 by {
                let j = if last >= len {
                    k
                } else if k >= last {
                    k - last
                } else {
                    k + len - last
                };
                assert(tried(last as int, len as int, j) == k);
            }
        }
        Allocation::NeedsBlock(Block::<N>::layout())
    }

    /// Adds a block and allocates memory for an object from it. The address and the length of the
    /// memory for the block are given. Without such memory nothing is allocated.
    pub fn allocate_from_new_block(
        &mut self,
        memory: Option<(u64, u64)>,
        layout: Layout,
    ) -> (res: Option<ObjectMemory>)
        requires
            old(self).wf(),
            layout.size <= N,
            layout.align <= ENTRY_ALIGN,
            layout.align != 0,
            layout.size % layout.align == 0,
            memory matches Some((base, len)) ==> old(self).is_new_block(base, len),
        ensures
            final(self).wf(),
            allocated_from_new_block(*old(self), memory, layout, *final(self), res),
    {
        let (base, len): (u64, u64) = match memory {
            Some(memory) => memory,
            None => {
                return None;
            },
        };
        let mut block: Block<N> = Block::new(base, len);
        let ghost fresh = block;
        let ghost count = num_entries(N as int, len as int);
        proof {
            assert(fresh.free().len() == count);
            lemma_entry_in_block(N as int, base as int, len as int, count - 1);
        }
        let res: Option<ObjectMemory> = block.allocate(layout);
        assert(block.free() =~= Seq::new(
            (count - 1) as nat,
            |i: int| entry_address(N as int, base as int, i) as u64,
        ));
        self.blocks.last_block_idx = self.blocks.blocks.len();
        self.blocks.blocks.push(block);
        assert(self.blocks().drop_last() =~= old(self).blocks());
        assert forall|i: int, j: int| 0 <= i < j < self.blocks().len() implies (
        #[trigger] self.blocks()[i]).base_address() != (
        #[trigger] self.blocks()[j]).base_address() by {
            assert(old(self).blocks()[i] == self.blocks()[i]);
            if j < old(self).blocks().len() {
                assert(old(self).blocks()[j] == self.blocks()[j]);
            }
        }
        res
    }

    /// Frees memory. If nothing in its block is in use any more, the block is removed and has to
    /// be freed by the caller: its address and length are returned.
    pub fn deallocate(&mut self, ptr: u64) -> (res: Option<(u64, u64)>)
        requires
            old(self).wf(),
            old(self).is_used(ptr),
        ensures
            final(self).wf(),
            final(self).last() == old(self).last(),
            exists|i: int|
                0 <= i < old(self).blocks().len() && (#[trigger] old(self).blocks()[i]).is_used(ptr)
                    && freed_from(*old(self), i, ptr, *final(self), res),
    {
        proof {
            lemma_block_size_is_power_of_two();
        }
        let ghost target = choose|i: int|
            0 <= i < self.blocks().len() && (#[trigger] self.blocks()[i]).is_used(ptr);
        let ghost before = self.blocks();
        let base: u64 = addr::align_down(ptr, BLOCK_SIZE);
        proof {
            lemma_block_of_entry(before[target], ptr);
        }
        let mut index: usize = 0;
        while self.blocks.blocks[index].base != base
            invariant
                self.wf(),
                before == self.blocks(),
                0 <= target < before.len(),
                before[target].base_address() == base,
                index <= target,
            decreases target - index,
        {
            assert(index != target);
            assert(index < self.blocks.blocks.len());
            index = index + 1;
        }
        proof {
            if index != target {
                assert(before[index as int].base_address() != before[target].base_address());
            }
        }
        self.blocks.blocks[index].deallocate(ptr);
        assert(self.blocks() =~= before.update(index as int, self.blocks()[index as int]));
        if self.blocks.blocks[index].try_free() {
            let ghost updated = self.blocks();
            let block: Block<N> = self.blocks.blocks.remove(index);
            assert(self.blocks() =~= updated.remove(index as int));
            assert(self.blocks() =~= before.remove(index as int));
            assert forall|i: int, j: int| 0 <= i < j < self.blocks().len() implies (
            #[trigger] self.blocks()[i]).base_address() != (
            #[trigger] self.blocks()[j]).base_address() by {
                let a = if i < index {
                    i
                } else {
                    i + 1
                };
                let b = if j < index {
                    j
                } else {
                    j + 1
                };
                assert(before[a].base_address() != before[b].base_address());
            }
            assert forall|i: int| 0 <= i < self.blocks().len() implies (
            #[trigger] self.blocks()[i]).wf() by {
                let a = if i < index {
                    i
                } else {
                    i + 1
                };
                assert(before[a].wf());
            }
            assert(freed_from(*old(self), target, ptr, *self, Some((block.base, block.len))));
            return Some((block.base, block.len));
        }
        assert(freed_from(*old(self), target, ptr, *self, None));
        None
    }
}

/// Memory has been freed in a block. The block is gone if nothing in it is in use any more.
pub open spec fn freed_from<const N: usize>(
    before: FixedSizeAllocator<N>,
    index: int,
    ptr: u64,
    after: FixedSizeAllocator<N>,
    res: Option<(u64, u64)>,
) -> bool {
    let block = before.blocks()[index];
    if block.used_entries() == 1 {
        &&& res matches Some((base, len)) && base == block.base_address() && len == block.length()
        &&& after.blocks() == before.blocks().remove(index)
    } else {
        &&& res is None
        &&& after.blocks().len() == before.blocks().len()
        &&& forall|j: int|
            0 <= j < after.blocks().len() && j != index ==> #[trigger] after.blocks()[j]
                == before.blocks()[j]
        &&& after.blocks()[index].base_address() == block.base_address()
        &&& after.blocks()[index].length() == block.length()
        &&& after.blocks()[index].free() == block.free().push(ptr)
        &&& after.blocks()[index].used_entries() == block.used_entries() - 1
    }
}

/// The block size is a power of two.
proof fn lemma_block_size_is_power_of_two()
    ensures
        addr::is_power_of_two(BLOCK_SIZE),
{
    assert(0x20_0000u64 & 0x1f_ffffu64 == 0) by (bit_vector);
}

/// The block of an entry is found by rounding the entry's address down.
proof fn lemma_block_of_entry<const N: usize>(block: Block<N>, ptr: u64)
    requires
        block.wf(),
        block.is_entry(ptr as int),
    ensures
        block.base_address() == ptr - ptr % BLOCK_SIZE,
{
    let i = choose|i: int|
        0 <= i < num_entries(N as int, block.length()) && ptr == #[trigger] entry_address(
            N as int,
            block.base_address(),
            i,
        );
    lemma_entry_in_block(N as int, block.base_address(), block.length(), i);
}

/// Memory has been allocated from the block that was tried at some point.
pub open spec fn allocated_from<const N: usize>(
    before: FixedSizeAllocator<N>,
    i: int,
    layout: Layout,
    after: FixedSizeAllocator<N>,
    res: Allocation,
) -> bool {
    let len = before.blocks().len() as int;
    let index = tried(before.last(), len, i);
    let block = before.blocks()[index];
    &&& res == Allocation::Allocated(
        (ObjectMemory { address: block.free().last(), len: layout.size }),
    )
    &&& after.last() == (before.last() + i) % len
    &&& after.blocks().len() == len
    &&& forall|j: int|
        0 <= j < len && j != index ==> #[trigger] after.blocks()[j] == before.blocks()[j]
    &&& after.blocks()[index].base_address() == block.base_address()
    &&& after.blocks()[index].length() == block.length()
    &&& after.blocks()[index].free() == block.free().drop_last()
    &&& after.blocks()[index].used_entries() == block.used_entries() + 1
    &&& after.blocks()[index].is_used(block.free().last())
    &&& !block.is_used(block.free().last())
}

/// Memory has been allocated from a new block, if there was memory for one.
pub open spec fn allocated_from_new_block<const N: usize>(
    before: FixedSizeAllocator<N>,
    memory: Option<(u64, u64)>,
    layout: Layout,
    after: FixedSizeAllocator<N>,
    res: Option<ObjectMemory>,
) -> bool {
    match memory {
        None => {
            &&& res is None
            &&& after.blocks() == before.blocks()
            &&& after.last() == before.last()
        },
        Some((base, len)) => {
            let count = num_entries(N as int, len as int);
            let block = after.blocks().last();
            &&& res == Some(
                (ObjectMemory {
                    address: entry_address(N as int, base as int, count - 1) as u64,
                    len: layout.size,
                }),
            )
            &&& after.blocks().len() == before.blocks().len() + 1
            &&& after.blocks().drop_last() == before.blocks()
            &&& after.last() == before.blocks().len()
            &&& block.base_address() == base
            &&& block.length() == len
            &&& block.free() == Seq::new(
                (count - 1) as nat,
                |i: int| entry_address(N as int, base as int, i) as u64,
            )
            &&& block.used_entries() == 1
            &&& block.is_used(res->0.address)
        },
    }
}

/// An address is that of an entry of one block only.
proof fn lemma_one_block<const N: usize>(allocator: FixedSizeAllocator<N>, i: int, j: int, ptr: u64)
    requires
        allocator.wf(),
        0 <= i < allocator.blocks().len(),
        0 <= j < allocator.blocks().len(),
        allocator.blocks()[i].is_entry(ptr as int),
        allocator.blocks()[j].is_entry(ptr as int),
    ensures
        i == j,
{
    assert(allocator.blocks()[i].wf() && allocator.blocks()[j].wf());
    lemma_block_of_entry(allocator.blocks()[i], ptr);
    lemma_block_of_entry(allocator.blocks()[j], ptr);
}

/// Memory that is allocated hasn't been in use, is in use from then on, and nothing else stops being
/// in use.
pub proof fn law_allocated_memory_is_unused<const N: usize>(
    before: FixedSizeAllocator<N>,
    i: int,
    layout: Layout,
    after: FixedSizeAllocator<N>,
    memory: ObjectMemory,
    other: u64,
)
    requires
        before.wf(),
        after.wf(),
        is_first_with_room(before.blocks(), before.last(), i),
        allocated_from(before, i, layout, after, Allocation::Allocated(memory)),
    ensures
        memory.len == layout.size,
        !before.is_used(memory.address),
        after.is_used(memory.address),
        before.is_used(other) ==> after.is_used(other),
{
    let ptr = memory.address;
    let index = tried(before.last(), before.blocks().len() as int, i);
    let block = before.blocks()[index];
    assert(block.wf());
    assert(block.is_entry(ptr as int)) by {
        assert(block.free()[block.free().len() - 1] == ptr);
    }
    if before.is_used(ptr) {
        let j = choose|j: int|
            0 <= j < before.blocks().len() && (#[trigger] before.blocks()[j]).is_used(ptr);
        lemma_one_block(before, index, j, ptr);
    }
    assert(after.blocks()[index].is_used(ptr));
    if before.is_used(other) {
        let j = choose|j: int|
            0 <= j < before.blocks().len() && (#[trigger] before.blocks()[j]).is_used(other);
        lemma_same_entries(before.blocks()[j], after.blocks()[j], other as int);
        assert(after.blocks()[j].is_used(other));
    }
}

/// Memory that is allocated from a new block hasn't been in use, is in use from then on, and nothing
/// else stops being in use.
#[verifier::rlimit(20)]
pub proof fn law_new_memory_is_unused<const N: usize>(
    before: FixedSizeAllocator<N>,
    base: u64,
    len: u64,
    layout: Layout,
    after: FixedSizeAllocator<N>,
    memory: ObjectMemory,
    other: u64,
)
    requires
        before.wf(),
        after.wf(),
        before.is_new_block(base, len),
        allocated_from_new_block(before, Some((base, len)), layout, after, Some(memory)),
    ensures
        memory.len == layout.size,
        base <= memory.address && memory.address + N <= base + len,
        !before.is_used(memory.address),
        after.is_used(memory.address),
        before.is_used(other) ==> after.is_used(other),
{
    let ptr = memory.address;
    let new = before.blocks().len() as int;
    let count = num_entries(N as int, len as int);
    assert(after.blocks()[new].wf());
    assert(after.blocks()[new].is_used(ptr));
    lemma_entry_count(N as int, len as int);
    assert(count > 0) by {
        let k = choose|k: int|
            0 <= k < num_entries(N as int, len as int) && ptr == #[trigger] entry_address(
                N as int,
                base as int,
                k,
            );
    }
    lemma_entry_in_block(N as int, base as int, len as int, count - 1);
    if before.is_used(ptr) {
        let j = choose|j: int|
            0 <= j < before.blocks().len() && (#[trigger] before.blocks()[j]).is_used(ptr);
        assert(after.blocks()[j] == after.blocks().drop_last()[j]);
        lemma_one_block(after, new, j, ptr);
    }
    if before.is_used(other) {
        let j = choose|j: int|
            0 <= j < before.blocks().len() && (#[trigger] before.blocks()[j]).is_used(other);
        assert(after.blocks()[j] == after.blocks().drop_last()[j]);
        assert(after.blocks()[j].is_used(other));
    }
}

/// Memory that is freed isn't in use any more, and nothing else stops being in use.
pub proof fn law_freed_memory_is_unused<const N: usize>(
    before: FixedSizeAllocator<N>,
    index: int,
    ptr: u64,
    after: FixedSizeAllocator<N>,
    res: Option<(u64, u64)>,
    other: u64,
)
    requires
        before.wf(),
        after.wf(),
        0 <= index < before.blocks().len(),
        before.blocks()[index].is_used(ptr),
        freed_from(before, index, ptr, after, res),
    ensures
        !after.is_used(ptr),
        other != ptr && before.is_used(other) ==> after.is_used(other),
{
    let block = before.blocks()[index];
    assert(block.wf());
    let gone = block.used_entries() == 1;
    if after.is_used(ptr) {
        let j = choose|j: int|
            0 <= j < after.blocks().len() && (#[trigger] after.blocks()[j]).is_used(ptr);
        let k = if gone && j >= index {
            j + 1
        } else {
            j
        };
        lemma_same_entries(before.blocks()[k], after.blocks()[j], ptr as int);
        lemma_one_block(before, index, k, ptr);
        assert(after.blocks()[index].free()[block.free().len() as int] == ptr);
    }
    if other != ptr && before.is_used(other) {
        let j = choose|j: int|
            0 <= j < before.blocks().len() && (#[trigger] before.blocks()[j]).is_used(other);
        if j == index {
            lemma_used_is_counted(block, ptr, other);
        }
        let k = if gone && j > index {
            j - 1
        } else {
            j
        };
        lemma_same_entries(before.blocks()[j], after.blocks()[k], other as int);
        assert(after.blocks()[k].is_used(other));
    }
}

/// Freeing memory undoes its allocation if its block was in use before: the same entries of the same
/// blocks are in use, and they are used in the same order.
pub proof fn law_free_undoes_allocation<const N: usize>(
    before: FixedSizeAllocator<N>,
    i: int,
    layout: Layout,
    allocated: FixedSizeAllocator<N>,
    memory: ObjectMemory,
    after: FixedSizeAllocator<N>,
    res: Option<(u64, u64)>,
    j: int,
)
    requires
        is_first_with_room(before.blocks(), before.last(), i),
        allocated_from(before, i, layout, allocated, Allocation::Allocated(memory)),
        freed_from(
            allocated,
            tried(before.last(), before.blocks().len() as int, i),
            memory.address,
            after,
            res,
        ),
        before.blocks()[tried(before.last(), before.blocks().len() as int, i)].used_entries() > 0,
        0 <= j < before.blocks().len(),
    ensures
        res is None,
        after.blocks().len() == before.blocks().len(),
        after.blocks()[j].base_address() == before.blocks()[j].base_address(),
        after.blocks()[j].length() == before.blocks()[j].length(),
        after.blocks()[j].free() == before.blocks()[j].free(),
        after.blocks()[j].used_entries() == before.blocks()[j].used_entries(),
{
    let index = tried(before.last(), before.blocks().len() as int, i);
    let free = before.blocks()[index].free();
    assert(free.drop_last().push(free.last()) =~= free);
    assert(j != index ==> after.blocks()[j] == allocated.blocks()[j]);
}

/// Memory that is in use is aligned, and different objects don't overlap.
pub proof fn law_objects_dont_overlap<const N: usize>(
    allocator: FixedSizeAllocator<N>,
    p: u64,
    q: u64,
)
    requires
        allocator.wf(),
        allocator.is_used(p),
        allocator.is_used(q),
    ensures
        p % ENTRY_ALIGN == 0,
        p != q ==> p + N <= q || q + N <= p,
{
    let i = choose|i: int|
        0 <= i < allocator.blocks().len() && (#[trigger] allocator.blocks()[i]).is_used(p);
    let j = choose|j: int|
        0 <= j < allocator.blocks().len() && (#[trigger] allocator.blocks()[j]).is_used(q);
    let a = allocator.blocks()[i];
    let b = allocator.blocks()[j];
    assert(a.wf() && b.wf());
    let k = choose|k: int|
        0 <= k < num_entries(N as int, a.length()) && p == #[trigger] entry_address(
            N as int,
            a.base_address(),
            k,
        );
    let l = choose|l: int|
        0 <= l < num_entries(N as int, b.length()) && q == #[trigger] entry_address(
            N as int,
            b.base_address(),
            l,
        );
    lemma_entry_in_block(N as int, a.base_address(), a.length(), k);
    lemma_entry_in_block(N as int, b.base_address(), b.length(), l);
    if i == j {
        if k < l {
            lemma_entries_apart(N as int, a.base_address(), k, l);
        } else if l < k {
            lemma_entries_apart(N as int, a.base_address(), l, k);
        }
    } else {
        assert(a.base_address() != b.base_address());
    }
}

/// An entry has room for an object and for an address, keeps the entries aligned, and isn't larger than
/// that takes.
pub proof fn law_size_of_entries(n: int)
    requires
        0 <= n,
    ensures
        entry_size(n) >= n,
        entry_size(n) >= 8,
        entry_size(n) % 8 == 0,
        entry_size(n) - 8 < n || entry_size(n) == 8,
{
}

/// The entries of a block follow its header one after the other. There's no room for another one behind
/// the last one.
pub proof fn law_entries_fill_block(n: int, base: int, len: int, i: int)
    requires
        0 <= n,
        32 <= len,
    ensures
        entry_address(n, base, 0) == base + 32,
        entry_address(n, base, i + 1) == entry_address(n, base, i) + entry_size(n),
        num_entries(n, len) >= 0,
        entry_address(n, base, num_entries(n, len)) <= base + len,
        entry_address(n, base, num_entries(n, len) + 1) > base + len,
{
    let size = entry_size(n);
    let count = num_entries(n, len);
    assert((i + 1) * size == i * size + size) by (nonlinear_arith);
    assert((count + 1) * size == count * size + size) by (nonlinear_arith);
    vstd::arithmetic::div_mod::lemma_fundamental_div_mod(len - 32, size);
    vstd::arithmetic::div_mod::lemma_mod_bound(len - 32, size);
    assert(size * count == count * size) by (nonlinear_arith);
    vstd::arithmetic::div_mod::lemma_div_pos_is_pos(len - 32, size);
}

/// Blocks are tried one after the other, starting with the one that was used last if it still exists, and
/// going on with the first one after the last one.
pub proof fn law_order_of_blocks(last: int, len: int, i: int)
    requires
        0 <= last,
        0 <= i < len,
    ensures
        0 <= tried(last, len, i) < len,
        last < len ==> tried(last, len, 0) == last,
        i + 1 < len ==> tried(last, len, i + 1) == if tried(last, len, i) + 1 < len {
            tried(last, len, i) + 1
        } else {
            0
        },
{
}

/// Another block is needed only if every entry of every block is in use.
pub proof fn law_full_blocks<const N: usize>(blocks: Seq<Block<N>>, i: int, last: int)
    requires
        0 <= i < blocks.len(),
        0 <= last,
    ensures
        all_full(blocks) ==> blocks[i].free().len() == 0,
        is_first_with_room(blocks, last, i) ==> !all_full(blocks),
        blocks[i].free().len() > 0 ==> !all_full(blocks),
{
    if is_first_with_room(blocks, last, i) {
        law_order_of_blocks(last, blocks.len() as int, i);
        assert(blocks[tried(last, blocks.len() as int, i)].free().len() > 0);
    }
}

/// The block that memory has been allocated from is tried first the next time.
pub proof fn law_last_block_is_tried_first<const N: usize>(
    before: FixedSizeAllocator<N>,
    i: int,
    layout: Layout,
    after: FixedSizeAllocator<N>,
    res: Allocation,
)
    requires
        0 <= before.last() < before.blocks().len(),
        0 <= i < before.blocks().len(),
        allocated_from(before, i, layout, after, res),
    ensures
        0 <= after.last() < after.blocks().len(),
        after.blocks()[after.last()].used_entries() == before.blocks()[after.last()].used_entries()
            + 1,
        after.blocks()[after.last()].free() == before.blocks()[after.last()].free().drop_last(),
        res is Allocated,
        res->Allocated_0.address == before.blocks()[after.last()].free().last(),
        res->Allocated_0.len == layout.size,
{
    let len = before.blocks().len() as int;
    if before.last() + i < len {
        vstd::arithmetic::div_mod::lemma_small_mod((before.last() + i) as nat, len as nat);
    } else {
        vstd::arithmetic::div_mod::lemma_small_mod((before.last() + i - len) as nat, len as nat);
        vstd::arithmetic::div_mod::lemma_mod_add_multiples_vanish(before.last() + i - len, len);
    }
}

/// The memory that is allocated from a new block is its last entry. All other entries are free, and the
/// block is tried first the next time.
pub proof fn law_new_block<const N: usize>(
    before: FixedSizeAllocator<N>,
    base: u64,
    len: u64,
    layout: Layout,
    after: FixedSizeAllocator<N>,
    memory: ObjectMemory,
    i: int,
)
    requires
        allocated_from_new_block(before, Some((base, len)), layout, after, Some(memory)),
        before.is_new_block(base, len),
        N <= MAX_SIZE,
    ensures
        ({
            let block = after.blocks().last();
            let size = entry_size(N as int);
            let count = block.free().len() + 1;
            &&& after.blocks().len() == before.blocks().len() + 1
            &&& after.blocks().drop_last() == before.blocks()
            &&& after.last() == before.blocks().len()
            &&& block.base_address() == base
            &&& block.length() == len
            &&& block.used_entries() == 1
            &&& memory.address == base + 32 + (count - 1) * size
            &&& base + 32 + count * size <= base + len < base + 32 + (count + 1) * size
            &&& 0 <= i < count - 1 ==> block.free()[i] == base + 32 + i * size
        }),
{
    let size = entry_size(N as int);
    let n = num_entries(N as int, len as int);
    law_entries_fill_block(N as int, base as int, len as int, 0);
    law_size_of_entries(N as int);
    let block = after.blocks().last();
    assert(n >= 1) by (nonlinear_arith)
        requires
            (n + 1) * size + 32 > len,
            len >= 32 + 128 * size,
            size >= 8,
    ;
    assert((n - 1) * size + size == n * size) by (nonlinear_arith);
    if 0 <= i < n - 1 {
        assert(i * size + size <= n * size) by (nonlinear_arith)
            requires
                i + 1 <= n,
                size >= 8,
        ;
        assert(i * size >= 0) by (nonlinear_arith)
            requires
                i >= 0,
                size >= 8,
        ;
    }
    assert((n - 1) * size >= 0) by (nonlinear_arith)
        requires
            n >= 1,
            size >= 8,
    ;
}

/// A block has two megabytes and starts with a header of 32 bytes. Entries are aligned to 8 bytes.
pub proof fn law_sizes()
    ensures
        BLOCK_SIZE == 2 * 1024 * 1024,
        HEADER_SIZE == 32,
        ENTRY_ALIGN == 8,
        MIN_ENTRIES == 128,
        HEADER_SIZE + MIN_ENTRIES * entry_size(MAX_SIZE as int) <= BLOCK_SIZE,
{
}

/// The first block with room has room, and every block that is tried before it is full.
pub proof fn law_first_block_with_room<const N: usize>(
    blocks: Seq<Block<N>>,
    last: int,
    i: int,
    j: int,
)
    requires
        is_first_with_room(blocks, last, i),
    ensures
        0 <= i < blocks.len(),
        blocks[tried(last, blocks.len() as int, i)].free().len() > 0,
        0 <= j < i ==> blocks[tried(last, blocks.len() as int, j)].free().len() == 0,
{
}

} // verus!
