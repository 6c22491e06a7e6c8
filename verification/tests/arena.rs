use std::sync::atomic::{AtomicU64, Ordering};

use shared_nothing::arena::{
    align_up, alloc_aligned, dealloc, ensure_init, seq_is_odd, RegionHeader, INIT_READY,
    INIT_WRITING, SIZE_HEADER,
};
use shared_nothing::graph::{
    create_array, create_map, create_object, new_scalar_node, rval, RVal, Scalar,
};
use shared_nothing::memory::{cell64, LocalMemory, Memory, SharedMemory};
use shared_nothing::node::{header, scalar_write_inplace};
use shared_nothing::value::{hoff, KIND_ARRAY, KIND_STR};

fn test_region(size: usize) -> LocalMemory {
    let mut mem = LocalMemory::new(size / 8);
    assert!(ensure_init(&mut mem, size as u64, 1));
    mem
}

#[test]
fn alloc_and_free_reuse() {
    let mut mem = test_region(4096);
    let a = alloc_aligned(&mut mem, 120).unwrap();
    let b = alloc_aligned(&mut mem, align_up(64)).unwrap();
    assert_ne!(a, b);
    assert!(dealloc(&mut mem, a, 120));
    let c = alloc_aligned(&mut mem, align_up(64)).unwrap();
    assert_eq!(c, a); // reuses the freed block
    let c = alloc_aligned(&mut mem, align_up(64)).unwrap();
    // free list now empty: the next block comes right after `b`.
    assert_eq!(c, a + 120 + align_up(64));
}

#[test]
fn freed_blocks_come_back_last_first() {
    let mut mem = test_region(4096);
    let a = alloc_aligned(&mut mem, 16).unwrap();
    let b = alloc_aligned(&mut mem, 16).unwrap();
    assert_eq!((a, b), (SIZE_HEADER, SIZE_HEADER + 16));
    assert!(dealloc(&mut mem, a, 16));
    assert!(dealloc(&mut mem, b, 16));
    assert_eq!(alloc_aligned(&mut mem, 16), Some(b));
    assert_eq!(alloc_aligned(&mut mem, 16), Some(a));
    assert_eq!(alloc_aligned(&mut mem, 16), Some(SIZE_HEADER + 32));
}

#[test]
fn freed_blocks_of_one_word_come_back_too() {
    let mut mem = test_region(4096);
    let a = alloc_aligned(&mut mem, 8).unwrap();
    let b = alloc_aligned(&mut mem, 8).unwrap();
    let c = alloc_aligned(&mut mem, 24).unwrap();
    assert_eq!((a, b, c), (48, 56, 64));
    mem.store(b, 77);
    // the word behind the block stays as it is
    assert!(dealloc(&mut mem, a, 8));
    assert_eq!(mem.load(b), 77);
    assert!(dealloc(&mut mem, c, 24));
    assert!(dealloc(&mut mem, b, 8));
    assert_eq!(alloc_aligned(&mut mem, 8), Some(b));
    assert_eq!(alloc_aligned(&mut mem, 24), Some(c));
    assert_eq!(alloc_aligned(&mut mem, 8), Some(a));
    let hdr = RegionHeader::from_base(&mut mem);
    assert_eq!((hdr.bump, hdr.free_top), (88, u64::MAX));
    assert_eq!(alloc_aligned(&mut mem, 8), Some(88));
}

#[test]
fn a_freed_block_that_is_too_small_is_not_handed_out() {
    let mut mem = test_region(4096);
    let a = alloc_aligned(&mut mem, 8).unwrap();
    let b = alloc_aligned(&mut mem, 64).unwrap();
    assert_eq!((a, b), (48, 56));
    assert!(dealloc(&mut mem, a, 8));
    assert_eq!(alloc_aligned(&mut mem, 64), Some(120));
    assert!(dealloc(&mut mem, b, 64));
    assert_eq!(alloc_aligned(&mut mem, 72), Some(184));
    assert_eq!(alloc_aligned(&mut mem, 24), Some(b));
    assert_eq!(alloc_aligned(&mut mem, 8), Some(a));
}

#[test]
fn rounding_up() {
    assert_eq!(align_up(0), 0);
    assert_eq!(align_up(1), 8);
    assert_eq!(align_up(8), 8);
    assert_eq!(align_up(9), 16);
    assert!(seq_is_odd(3) && !seq_is_odd(4));
}

#[test]
fn a_region_that_is_full_gives_nothing() {
    let mut mem = test_region(64);
    assert_eq!(alloc_aligned(&mut mem, 16), Some(48));
    assert_eq!(alloc_aligned(&mut mem, 8), None);
    assert_eq!(alloc_aligned(&mut mem, 0), Some(64));
    assert_eq!(alloc_aligned(&mut mem, u64::MAX), None);
}

#[test]
fn the_header_of_a_new_region() {
    let mut mem = test_region(4096);
    let hdr = RegionHeader::from_base(&mut mem);
    assert_eq!(hdr.init_state, INIT_READY);
    assert_eq!(hdr.backend, 1);
    assert_eq!(hdr.capacity, 4096);
    assert_eq!(hdr.bump, SIZE_HEADER);
    assert_eq!(hdr.free_top, u64::MAX);
    assert_eq!(hdr.root, 0);
    assert_eq!(hdr._pad, 0);
    // once is enough
    assert!(ensure_init(&mut mem, 64, 2));
    let again = RegionHeader::from_base(&mut mem);
    assert_eq!((again.capacity, again.backend), (4096, 1));
}

#[test]
fn a_region_that_another_thread_initializes() {
    let mut mem = LocalMemory::new(16);
    mem.store(0, INIT_WRITING as u64);
    assert!(!ensure_init(&mut mem, 128, 1));
    mem.store(0, INIT_READY as u64);
    assert!(ensure_init(&mut mem, 128, 1));
    // whoever holds the lock of the allocator holds it
    mem.store(40, 1);
    assert_eq!(alloc_aligned(&mut mem, 8), None);
    assert!(!dealloc(&mut mem, 48, 16));
}

#[test]
fn writing_in_place_gives_the_new_version() {
    let mut mem = test_region(4096);
    let h = new_scalar_node(&mut mem, &Scalar::Int(1)).unwrap();
    let before = header(&mut mem, hoff(h));
    assert_eq!(scalar_write_inplace(&mut mem, hoff(h), &Scalar::Int(7)), Some(2));
    assert_eq!(scalar_write_inplace(&mut mem, hoff(h), &Scalar::Int(8)), Some(4));
    assert!(matches!(rval(&mut mem, h), Ok(RVal::Int(8))));
    let after = header(&mut mem, hoff(h));
    assert_eq!(after.seqlock, 4);
    assert_eq!(
        (after.tag, after.cap, after.node_size),
        (before.tag, before.cap, before.node_size)
    );
    // another writer holds the node
    mem.store(hoff(h) + 16, 5);
    assert_eq!(scalar_write_inplace(&mut mem, hoff(h), &Scalar::Int(9)), None);
}

#[test]
fn headers_of_nodes() {
    let mut mem = test_region(4096);
    let list = create_array(&mut mem, 3).unwrap();
    let hdr = header(&mut mem, hoff(list));
    assert_eq!((hdr.tag, hdr.node_size, hdr.cap, hdr.store), (KIND_ARRAY, 40 + 3 * 8, 3, 0));
    assert_eq!((hdr.seqlock, hdr.count), (0, 0));
    let text = new_scalar_node(&mut mem, &Scalar::Str("hello".into())).unwrap();
    let hdr = header(&mut mem, hoff(text));
    assert_eq!((hdr.tag, hdr.node_size, hdr.cap, hdr.store), (KIND_STR, 48, 8, 5));
    assert_eq!(hoff(text), hoff(list) + 64);
    let obj = create_object(&mut mem, 0).unwrap();
    assert_eq!(header(&mut mem, hoff(obj)).cap, 16);
    let map = create_map(&mut mem, 2).unwrap();
    assert_eq!(hoff(map), hoff(obj) + 40 + 16 * 16);
}

#[test]
fn sizes_and_kinds_of_scalars() {
    assert_eq!(Scalar::Null.size(), 8);
    assert_eq!(Scalar::BigInt(1).size(), 16);
    assert_eq!(Scalar::Str("123456789".into()).size(), 16);
    assert_eq!(Scalar::Str(String::new()).size(), 0);
    assert_eq!(Scalar::Str(String::new()).kind(), 9);
    assert_eq!(Scalar::Float(0).kind(), 7);
}

#[test]
fn shared_memory_is_the_cells() {
    let cells: Vec<AtomicU64> = (0..4).map(|i| AtomicU64::new(i)).collect();
    let mut mem = SharedMemory::new(&cells, 2);
    assert_eq!(mem.load(16), 2);
    assert_eq!(mem.load(17), 0);
    assert_eq!(mem.load(32), 0);
    mem.store(8, 77);
    mem.store(9, 78);
    assert_eq!(cells[1].load(Ordering::SeqCst), 77);
    assert!(mem.cas(24, 3, 9));
    assert!(!mem.cas(24, 3, 10));
    assert!(!mem.cas(64, 0, 1));
    assert_eq!(cells[3].load(Ordering::SeqCst), 9);
    assert!(cell64(&cells, 24).is_some());
    assert!(cell64(&cells, 25).is_none());
    assert!(cell64(&cells, 32).is_none());
    assert!(mem.pause());
    assert!(mem.pause());
    assert!(!mem.pause());
}

#[test]
fn one_of_several_views_initializes() {
    let cells: Vec<AtomicU64> =
        (0..16).map(|i| AtomicU64::new(if i < 6 { 0 } else { i })).collect();
    let mut a = SharedMemory::new(&cells, 0);
    let mut b = SharedMemory::new(&cells, 0);
    assert!(ensure_init(&mut b, 120, 2));
    assert!(ensure_init(&mut a, 64, 1));
    let header = RegionHeader::from_base(&mut a);
    assert_eq!((header.capacity, header.backend), (120, 2));
    assert_eq!((header.bump, header.free_top, header.root), (48, u64::MAX, 0));
    for i in 6..16u64 {
        assert_eq!(a.load(8 * i), i);
    }
}
