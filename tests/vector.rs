use freelist_alloc::allocator::{Allocator, Failure};
use freelist_alloc::vector::Vector;

fn ready() -> Allocator {
    let mut a = Allocator::new();
    a.init();
    a
}

#[test]
fn test_vector_basic() {
    let mut alloc = ready();
    let mut vec = Vector::new();
    vec.push(&mut alloc, 3).unwrap();
    vec.push(&mut alloc, 2).unwrap();
    vec.push(&mut alloc, 1).unwrap();
    assert_eq!(vec.len(), 3);
    vec.push(&mut alloc, 0).unwrap();
    assert_eq!(vec.capacity(), 4);
    vec.push(&mut alloc, 12).unwrap();
    assert_eq!(vec.capacity(), 12);
}

#[test]
fn push_then_pop_reverses() {
    let mut alloc = ready();
    let mut vec = Vector::new();
    for x in [3u32, 2, 1, 0] {
        vec.push(&mut alloc, x).unwrap();
    }
    assert_eq!(vec.len(), 4);
    let mut out = Vec::new();
    for _ in 0..4 {
        out.push(vec.pop().unwrap());
    }
    assert_eq!(out, vec![0, 1, 2, 3]);
    assert_eq!(vec.len(), 0);
    assert_eq!(vec.pop(), None);
}

#[test]
fn capacity_grows_by_three() {
    let mut alloc = ready();
    let mut vec: Vector<u64> = Vector::new();
    assert_eq!(vec.capacity(), 0);
    for i in 0..4 {
        vec.push(&mut alloc, i).unwrap();
        assert_eq!(vec.capacity(), 4);
    }
    vec.push(&mut alloc, 4).unwrap();
    assert_eq!(vec.capacity(), 12);
    for i in 5..13 {
        vec.push(&mut alloc, i).unwrap();
    }
    assert_eq!(vec.capacity(), 36);
    for i in 0..13 {
        assert_eq!(vec.get(i as usize), Ok(i));
    }
}

#[test]
fn set_past_capacity_grows_to_index() {
    let mut alloc = ready();
    let mut vec: Vector<i32> = Vector::new();
    vec.push(&mut alloc, 1).unwrap();
    assert_eq!(vec.capacity(), 4);
    vec.set(&mut alloc, 77, 10).unwrap();
    assert_eq!(vec.capacity(), 11);
    assert_eq!(vec.len(), 11);
    assert_eq!(vec.get(10), Ok(77));
    assert_eq!(vec.get(0), Ok(1));
    assert_eq!(vec.get(11), Err(Failure::IndexOutOfBounds));
}

#[test]
fn set_within_length_overwrites() {
    let mut alloc = ready();
    let mut vec: Vector<u8> = Vector::new();
    vec.push(&mut alloc, 1).unwrap();
    vec.push(&mut alloc, 2).unwrap();
    vec.set(&mut alloc, 9, 1).unwrap();
    assert_eq!(vec.get(1), Ok(9));
    // Between the length and the capacity: accepted, not seen.
    vec.set(&mut alloc, 5, 3).unwrap();
    assert_eq!(vec.len(), 2);
    assert_eq!(vec.get(3), Err(Failure::IndexOutOfBounds));
}

#[test]
fn growth_returns_old_buffer() {
    let mut alloc = ready();
    let mut vec: Vector<u32> = Vector::new();
    for i in 0..5 {
        vec.push(&mut alloc, i).unwrap();
    }
    // 4 slots of 4 bytes at 0 were given back when 12 slots were taken at 16.
    let blocks = alloc.blocks();
    assert_eq!(blocks.len(), 2);
    assert_eq!((blocks[0].start, blocks[0].size), (0, 16));
    assert_eq!(blocks[1].start, 64);
    vec.release(&mut alloc);
    let blocks = alloc.blocks();
    assert_eq!(blocks.len(), 1);
    assert_eq!(blocks[0].size, freelist_alloc::allocator::ARENA_SIZE);
}

#[test]
fn failed_growth_changes_nothing() {
    let mut alloc = ready();
    let mut vec: Vector<u64> = Vector::new();
    vec.push(&mut alloc, 1).unwrap();
    let before = alloc.blocks();
    assert_eq!(vec.set(&mut alloc, 2, 100000), Err(Failure::OutOfMemory));
    assert_eq!(vec.len(), 1);
    assert_eq!(vec.capacity(), 4);
    assert_eq!(alloc.blocks(), before);
    assert_eq!(vec.set(&mut alloc, 2, usize::MAX), Err(Failure::OutOfMemory));
}

#[test]
fn get_on_empty_fails() {
    let vec: Vector<u8> = Vector::new();
    assert_eq!(vec.get(0), Err(Failure::IndexOutOfBounds));
}
