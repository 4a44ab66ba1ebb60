use freelist_alloc::allocator::{
    is_supported_align, Allocator, Failure, ARENA_SIZE, HEADER_SIZE, MAX_SUPPORTED_ALIGN,
};

fn ready() -> Allocator {
    let mut a = Allocator::new();
    a.init();
    a
}

#[test]
fn test_basic_alloc_dealloc() {
    let mut a = ready();
    let mem = a.allocate(4, 1);
    assert!(mem.is_ok(), "Allocation failed: Null ptr returned");
}

#[test]
fn init_gives_one_block_of_whole_arena() {
    let a = ready();
    let blocks = a.blocks();
    assert_eq!(blocks.len(), 1);
    assert_eq!(blocks[0].start, 0);
    assert_eq!(blocks[0].size, ARENA_SIZE);
    assert_eq!(ARENA_SIZE, 131072);
    assert_eq!(MAX_SUPPORTED_ALIGN, 4096);
}

#[test]
fn allocate_before_init_is_out_of_memory() {
    let mut a = Allocator::new();
    assert_eq!(a.allocate(4, 1), Err(Failure::OutOfMemory));
}

#[test]
fn unsupported_alignment_leaves_list_unchanged() {
    let mut a = ready();
    let p = a.allocate(10, 8).unwrap();
    assert_eq!(p, 0);
    let before = a.blocks();
    for align in [0usize, 3, 6, 12, 8192, 4097, 100] {
        assert_eq!(a.allocate(4, align), Err(Failure::UnsupportedAlignment));
        assert_eq!(a.blocks(), before);
    }
}

#[test]
fn supported_alignments() {
    for k in 0..13 {
        assert!(is_supported_align(1usize << k));
    }
    assert!(!is_supported_align(0));
    assert!(!is_supported_align(8192));
    assert!(!is_supported_align(24));
}

#[test]
fn align_up_exact_values() {
    assert_eq!(Allocator::align_up(0, 8), 0);
    assert_eq!(Allocator::align_up(1, 8), 8);
    assert_eq!(Allocator::align_up(8, 8), 8);
    assert_eq!(Allocator::align_up(9, 4096), 4096);
    assert_eq!(Allocator::align_up(5, 1), 5);
}

#[test]
fn allocation_splits_first_block() {
    let mut a = ready();
    assert_eq!(a.allocate(100, 1), Ok(0));
    let blocks = a.blocks();
    assert_eq!(blocks.len(), 1);
    assert_eq!(blocks[0].start, 100);
    assert_eq!(blocks[0].size, ARENA_SIZE - 100);
}

#[test]
fn aligned_allocation_skips_padding() {
    let mut a = ready();
    assert_eq!(a.allocate(1, 1), Ok(0));
    assert_eq!(a.allocate(16, 64), Ok(64));
    let blocks = a.blocks();
    assert_eq!(blocks[0].start, 80);
    assert_eq!(blocks[0].size, ARENA_SIZE - 80);
}

#[test]
fn too_large_request_is_out_of_memory() {
    let mut a = ready();
    let before = a.blocks();
    assert_eq!(a.allocate(ARENA_SIZE - HEADER_SIZE + 1, 1), Err(Failure::OutOfMemory));
    assert_eq!(a.blocks(), before);
    assert_eq!(a.allocate(usize::MAX, 1), Err(Failure::OutOfMemory));
    assert_eq!(a.allocate(ARENA_SIZE - HEADER_SIZE, 1), Ok(0));
}

#[test]
fn end_to_end_blocks_merge_and_are_reused() {
    let mut a = ready();
    let p1 = a.allocate(4, 1).unwrap();
    let p2 = a.allocate(4, 1).unwrap();
    assert_ne!(p1, p2);
    a.deallocate(p1, 4);
    a.deallocate(p2, 4);
    assert_eq!(a.allocate(8, 1), Ok(p1));
}

#[test]
fn adjacent_freed_blocks_coalesce() {
    let mut a = ready();
    let p1 = a.allocate(40, 1).unwrap();
    let p2 = a.allocate(24, 1).unwrap();
    let p3 = a.allocate(8, 1).unwrap();
    assert_eq!((p1, p2, p3), (0, 40, 64));
    a.deallocate(p1, 40);
    a.deallocate(p2, 24);
    let blocks = a.blocks();
    assert_eq!(blocks.len(), 2);
    assert_eq!(blocks[0].start, 0);
    assert_eq!(blocks[0].size, 64);
    assert_eq!(a.allocate(64 - HEADER_SIZE, 1), Ok(p1));
}

#[test]
fn free_list_kept_in_address_order() {
    let mut a = ready();
    let p1 = a.allocate(8, 1).unwrap();
    let p2 = a.allocate(8, 1).unwrap();
    let p3 = a.allocate(8, 1).unwrap();
    let _p4 = a.allocate(8, 1).unwrap();
    a.deallocate(p3, 8);
    a.deallocate(p1, 8);
    let blocks = a.blocks();
    assert_eq!(blocks.len(), 3);
    assert_eq!((blocks[0].start, blocks[1].start, blocks[2].start), (p1, p3, 32));
    a.deallocate(p2, 8);
    let blocks = a.blocks();
    assert_eq!(blocks.len(), 2);
    assert_eq!((blocks[0].start, blocks[0].size), (0, 24));
}

#[test]
fn paired_calls_return_every_byte() {
    let mut a = ready();
    let p1 = a.allocate(100, 1).unwrap();
    let p2 = a.allocate(7, 1).unwrap();
    let p3 = a.allocate(300, 1).unwrap();
    a.deallocate(p2, 7);
    a.deallocate(p1, 100);
    a.deallocate(p3, 300);
    let total: usize = a.blocks().iter().map(|b| b.size).sum();
    assert_eq!(total, ARENA_SIZE);
    assert_eq!(a.blocks().len(), 1);
}

#[test]
fn adjacent_freed_blocks_coalesce_higher_first() {
    let mut a = ready();
    let p1 = a.allocate(10, 1).unwrap();
    let p2 = a.allocate(30, 1).unwrap();
    let _p3 = a.allocate(8, 1).unwrap();
    a.deallocate(p2, 30);
    a.deallocate(p1, 10);
    assert_eq!(a.allocate(40 - HEADER_SIZE, 1), Ok(p1));
}
