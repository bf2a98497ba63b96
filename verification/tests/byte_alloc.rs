//! The byte-addressed wrapper and the heap built on it: granted byte
//! ranges stay inside the managed region, zero-fills and copies touch
//! exactly the granted bytes.

use rustboot::heap::{self, HEAP_BASE, HEAP_ORDER};
use rustboot::mem::Memory;

#[test]
fn granted_range_stays_inside_the_region() {
    let mut heap = heap::init();
    let capacity = 1usize << HEAP_ORDER;
    let (p1, s1) = heap.allocate(100);
    assert!(s1 >= 100);
    assert!(p1 >= HEAP_BASE);
    assert!(p1 + s1 <= HEAP_BASE + capacity);
    let (p2, s2) = heap.allocate(4000);
    assert!(s2 >= 4000);
    assert!(p2 >= HEAP_BASE && p2 + s2 <= HEAP_BASE + capacity);
    // Writing the full granted ranges lands inside the region.
    let mut m = Memory::new(HEAP_BASE, capacity);
    for a in p1..p1 + s1 {
        m.write(a, 0xAB);
    }
    for a in p2..p2 + s2 {
        m.write(a, 0xCD);
    }
    assert_eq!(m.read(p1), 0xAB);
    assert_eq!(m.read(p2), 0xCD);
}

#[test]
fn allocate_rounds_bytes_to_whole_units() {
    // With byte-sized units the granted size is the next power of two.
    let mut heap = heap::init();
    assert_eq!(heap.allocate(3).1, 4);
    assert_eq!(heap.allocate(17).1, 32);
    assert_eq!(heap.allocate(1).1, 1);
}

#[test]
fn zero_allocate_clears_exactly_the_granted_range() {
    let mut heap = heap::init();
    let capacity = 1usize << HEAP_ORDER;
    let mut m = Memory::new(HEAP_BASE, capacity);
    // Dirty a stretch of memory first.
    for a in HEAP_BASE..HEAP_BASE + 64 {
        m.write(a, 0xFF);
    }
    let (p, s) = heap.zero_allocate(&mut m, 16);
    assert_eq!(s, 16);
    for a in p..p + s {
        assert_eq!(m.read(a), 0);
    }
    // A byte beyond the granted range kept its value.
    assert_eq!(m.read(p + s), 0xFF);
}

#[test]
fn realloc_relocates_and_copies() {
    let mut heap = heap::init();
    let capacity = 1usize << HEAP_ORDER;
    let mut m = Memory::new(HEAP_BASE, capacity);
    let (p, s) = heap.allocate(8);
    assert_eq!(s, 8);
    for i in 0..8 {
        m.write(p + i, (i as u8) + 1);
    }
    let (q, t) = heap.realloc(&mut m, p, 16);
    assert_eq!(t, 16);
    // The first eight bytes came along.
    for i in 0..8 {
        assert_eq!(m.read(q + i), (i as u8) + 1);
    }
}

#[test]
fn free_out_of_range_is_ignored() {
    let mut heap = heap::init();
    let (p, s) = heap.allocate(64);
    assert!(s >= 64);
    // Pointers below and beyond the region change nothing.
    heap.free(HEAP_BASE - 1);
    heap.free(HEAP_BASE + (1 << HEAP_ORDER));
    // The block is still live: freeing it properly releases it,
    // and the same request finds the same spot again.
    heap.free(p);
    assert_eq!(heap.allocate(64), (p, 64));
}

#[test]
fn heap_helpers_allocate_and_clear() {
    let mut heap = heap::init();
    let capacity = 1usize << HEAP_ORDER;
    let mut m = Memory::new(HEAP_BASE, capacity);
    let p = heap::malloc_raw(&mut heap, 24).unwrap();
    assert!(p >= HEAP_BASE && p + 24 <= HEAP_BASE + capacity);
    let q = heap::zero_alloc(&mut heap, &mut m, 6, 4).unwrap();
    for a in q..q + 24 {
        assert_eq!(m.read(a), 0);
    }
    heap::free(&mut heap, p);
    let r = heap::realloc_raw(&mut heap, &mut m, q, 12, 4).unwrap();
    assert!(r >= HEAP_BASE && r + 48 <= HEAP_BASE + capacity);
}

#[test]
fn memory_copy_handles_overlap() {
    let mut m = Memory::new(0x1000, 64);
    for i in 0..16 {
        m.write(0x1000 + i, i as u8);
    }
    // An overlapping forward copy still sees the old source bytes.
    m.copy(0x1008, 0x1000, 16);
    for i in 0..16 {
        assert_eq!(m.read(0x1008 + i), i as u8);
    }
}

#[test]
fn memory_fill_touches_exactly_the_range() {
    let mut m = Memory::new(0, 32);
    m.fill(8, 8, 0xEE);
    assert_eq!(m.read(7), 0);
    for a in 8..16 {
        assert_eq!(m.read(a), 0xEE);
    }
    assert_eq!(m.read(16), 0);
}
