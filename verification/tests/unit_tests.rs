use quallocator::align::{align_up, align_up_to};
use quallocator::bump::{BumpAllocator, BumpMemoryBlockHeader};
use quallocator::heap::{get_current_heap, Heap};

#[test]
fn test_get_current_heap() {
    let mut heap = Heap::new(4096, 1 << 30);
    let heap_address = get_current_heap(&heap);
    heap.grow(32).unwrap();

    let new_heap_address = get_current_heap(&heap);
    assert_ne!(heap_address, new_heap_address);
    assert_eq!(heap_address + 32, new_heap_address);

    heap.shrink(32);
    let reduced_heap_address = get_current_heap(&heap);
    assert_eq!(heap_address, reduced_heap_address);
    assert_eq!(new_heap_address - 32, reduced_heap_address);
}

#[test]
fn test_align_up() {
    /*
     * 13 is not a multiple of the char alignment, so it should be rounded up
     *
     * char alignment constant is 4 on x86_64, so 13 rounded up is 16
     */
    let aligned_size = align_up(13);
    let char_alignment = std::mem::align_of::<char>() as i32;

    assert!(aligned_size % char_alignment == 0);

    /*
     * u8 alignment constant is 1 on x86_64, so every number is aligned
     * even is it's a prime number
     */
    let aligned_size = align_up_to(17, std::mem::align_of::<u8>() as i32);
    assert_eq!(aligned_size, 17);
}

#[test]
fn test_qualloc() {
    /*
     * In this test we are going to test if block are correctly reused
     * First, we must allocate a block with size 52
     * Next, we must allocate a second block with size 52 too
     * Next, we are freeing first block
     * Next, we must allocate other block with size 52
     *
     * The result must be that first block must be ocupped by the last allocated block
     */
    let mut allocator = BumpAllocator::new(4096, 1 << 30);

    let initial_heap_address = get_current_heap(&allocator.heap);
    let aligned_size = align_up(52);

    // First block
    let first_block = allocator.qualloc(aligned_size).unwrap();

    // Second block
    let second_block = allocator.qualloc(aligned_size).unwrap();

    allocator.qudelloc(first_block);

    // First block again
    let first_block_again = allocator.qualloc(aligned_size).unwrap();

    // Asserts
    assert_eq!(
        first_block, first_block_again,
        "Third block must have the same address as the first block"
    );
    assert_eq!(
        second_block,
        initial_heap_address + BumpMemoryBlockHeader::size() * 2 + aligned_size as usize,
        "Second block must have the same direction as the first pointer plus it's size and the header size"
    );

    allocator.qualloc(aligned_size).unwrap();
    allocator.qudelloc(first_block_again);
    allocator.qudelloc(second_block);
    let merged_two_blocks = allocator.qualloc(aligned_size * 2).unwrap();

    assert_eq!(
        merged_two_blocks - BumpMemoryBlockHeader::size(),
        initial_heap_address,
        "Third block size must be equal to aligned_size * 2 (given size) plus header size (because deallocated blocks was merge)"
    );
}
