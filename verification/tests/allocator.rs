use mushroom::memory::heap::fixed_size_allocator::{
    Allocation, Block, FixedSizeAllocator, Layout, ObjectMemory, BLOCK_SIZE, HEADER_SIZE,
};

const LAYOUT: Layout = Layout { size: 64, align: 8 };

fn object(address: u64) -> ObjectMemory {
    ObjectMemory { address, len: 64 }
}

#[test]
fn blocks_are_divided_into_entries() {
    let layout = Block::<64>::layout();
    assert_eq!((layout.size, layout.align), (BLOCK_SIZE, BLOCK_SIZE));
    let mut block = Block::<64>::new(BLOCK_SIZE, BLOCK_SIZE);
    assert!(block.contains(BLOCK_SIZE));
    assert!(block.contains(2 * BLOCK_SIZE - 1));
    assert!(!block.contains(2 * BLOCK_SIZE));
    assert!(!block.contains(BLOCK_SIZE - 1));
    assert!(block.try_free());

    // The last entry is used first.
    let last = BLOCK_SIZE + HEADER_SIZE + 64 * ((BLOCK_SIZE - HEADER_SIZE) / 64 - 1);
    assert_eq!(block.allocate(LAYOUT), Some(object(last)));
    assert_eq!(block.allocate(LAYOUT), Some(object(last - 64)));
    assert!(!block.try_free());
    block.deallocate(last);
    assert_eq!(block.allocate(LAYOUT), Some(object(last)));
}

#[test]
fn blocks_run_out_of_entries() {
    // The block has the number of entries that it has at least.
    let len = HEADER_SIZE + 128 * 0x100;
    let mut block = Block::<0x100>::new(0, len);
    let mut entries = Vec::new();
    while let Some(memory) = block.allocate(Layout { size: 0x80, align: 4 }) {
        assert_eq!(memory.len, 0x80);
        let entry = memory.address;
        assert_eq!(entry % 8, 0);
        assert!(block.contains(entry) && block.contains(entry + 0xff));
        entries.push(entry);
    }
    assert_eq!(entries.len(), 128);
    entries.sort();
    assert!(entries.windows(2).all(|pair| pair[0] + 0x100 <= pair[1]));
}

#[test]
fn small_entries_can_hold_an_address() {
    let mut block = Block::<1>::new(0, HEADER_SIZE + 128 * 8);
    let first = block.allocate(Layout { size: 1, align: 1 }).unwrap();
    let second = block.allocate(Layout { size: 1, align: 1 }).unwrap();
    assert_eq!(first.address - second.address, 8);
    assert_eq!((first.len, second.len), (1, 1));
}

#[test]
fn other_objects_are_refused() {
    let mut allocator = FixedSizeAllocator::<64>::new();
    assert!(allocator.can_allocate(LAYOUT));
    assert!(!allocator.can_allocate(Layout { size: 65, align: 1 }));
    assert!(!allocator.can_allocate(Layout { size: 64, align: 16 }));
    assert_eq!(allocator.allocate(Layout { size: 80, align: 16 }), Allocation::Refused);
    assert_eq!(allocator.allocate(Layout { size: 65, align: 8 }), Allocation::Refused);
}

#[test]
fn objects_are_allocated_from_blocks() {
    let mut allocator = FixedSizeAllocator::<64>::new();
    let needed = Layout { size: BLOCK_SIZE, align: BLOCK_SIZE };
    assert_eq!(allocator.allocate(LAYOUT), Allocation::NeedsBlock(needed));
    assert_eq!(allocator.allocate_from_new_block(None, LAYOUT), None);
    assert_eq!(allocator.allocate(LAYOUT), Allocation::NeedsBlock(needed));
    let block = Some((3 * BLOCK_SIZE, BLOCK_SIZE));
    let first = allocator.allocate_from_new_block(block, LAYOUT).unwrap();
    let last = HEADER_SIZE + 64 * ((BLOCK_SIZE - HEADER_SIZE) / 64 - 1);
    assert_eq!(first, object(3 * BLOCK_SIZE + last));
    let first = first.address;
    let second = match allocator.allocate(LAYOUT) {
        Allocation::Allocated(memory) => memory.address,
        _ => unreachable!(),
    };
    assert_eq!(second, first - 64);

    assert_eq!(allocator.deallocate(first), None);
    assert_eq!(allocator.allocate(LAYOUT), Allocation::Allocated(object(first)));
    assert_eq!(allocator.deallocate(second), None);
    assert_eq!(allocator.deallocate(first), Some((3 * BLOCK_SIZE, BLOCK_SIZE)));
    assert_eq!(allocator.allocate(LAYOUT), Allocation::NeedsBlock(needed));
}

#[test]
fn the_block_that_was_used_last_is_tried_first() {
    let len = HEADER_SIZE + 128 * 64;
    let mut allocator = FixedSizeAllocator::<64>::new();
    let block = Some((BLOCK_SIZE, len));
    let mut first = vec![allocator.allocate_from_new_block(block, LAYOUT).unwrap().address];
    for _ in 1..128 {
        match allocator.allocate(LAYOUT) {
            Allocation::Allocated(memory) => first.push(memory.address),
            _ => unreachable!(),
        }
    }
    assert!(matches!(allocator.allocate(LAYOUT), Allocation::NeedsBlock(_)));
    let block = Some((2 * BLOCK_SIZE, len));
    let second = allocator.allocate_from_new_block(block, LAYOUT).unwrap();
    assert!(second.address > 2 * BLOCK_SIZE);

    // The first block has room again, but isn't tried first.
    assert_eq!(allocator.deallocate(first[0]), None);
    for _ in 1..128 {
        assert!(matches!(
            allocator.allocate(LAYOUT),
            Allocation::Allocated(memory) if memory.address > 2 * BLOCK_SIZE
        ));
    }
    assert_eq!(allocator.allocate(LAYOUT), Allocation::Allocated(object(first[0])));
    assert!(matches!(allocator.allocate(LAYOUT), Allocation::NeedsBlock(_)));
}
