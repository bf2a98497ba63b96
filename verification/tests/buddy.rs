//! The buddy allocator's externally visible behavior: the order-3
//! walkthrough, rounding, alignment, exhaustion, and the silent no-op
//! frees.

use rustboot::allocator::{Allocator, BuddyAlloc};
use rustboot::bitv::Bitv;

fn order3() -> BuddyAlloc {
    BuddyAlloc::new(3, Bitv::new(16))
}

#[test]
fn order_three_walkthrough() {
    // An order-3 tree manages 8 units.  A request for 3 rounds to 4 and
    // lands at the lowest offset.
    let mut b = order3();
    assert_eq!(b.allocate(3), (0, 4));
    // A second request for 3 takes the other half.
    assert_eq!(b.allocate(3), (4, 4));
    // All 8 units are consumed: even one more unit reports exhaustion.
    assert_eq!(b.allocate(1), (0, 0));
    // Freeing the first block and asking for 2 units reuses its start.
    b.free(0);
    assert_eq!(b.allocate(2), (0, 2));
}

#[test]
fn zero_request_takes_one_unit() {
    let mut b = order3();
    let (off, size) = b.allocate(0);
    assert_eq!((off, size), (0, 1));
}

#[test]
fn granted_sizes_round_up_to_powers_of_two() {
    let mut b = BuddyAlloc::new(4, Bitv::new(32));
    assert_eq!(b.allocate(1).1, 1);
    assert_eq!(b.allocate(2).1, 2);
    assert_eq!(b.allocate(3).1, 4);
    assert_eq!(b.allocate(5).1, 8);
}

#[test]
fn granted_offsets_align_to_granted_size() {
    let mut b = BuddyAlloc::new(4, Bitv::new(32));
    let (o1, s1) = b.allocate(1);
    let (o2, s2) = b.allocate(4);
    let (o3, s3) = b.allocate(2);
    assert_eq!(o1 % s1, 0);
    assert_eq!(o2 % s2, 0);
    assert_eq!(o3 % s3, 0);
    // Blocks never overlap: the three granted ranges are disjoint.
    assert!(o1 + s1 <= o2 || o2 + s2 <= o1);
    assert!(o1 + s1 <= o3 || o3 + s3 <= o1);
    assert!(o2 + s2 <= o3 || o3 + s3 <= o2);
}

#[test]
fn oversized_request_reports_exhaustion() {
    let mut b = order3();
    assert_eq!(b.allocate(9), (0, 0));
    // The failed request changed nothing: the whole range is still free.
    assert_eq!(b.allocate(8), (0, 8));
}

#[test]
fn alloc_then_free_restores_the_allocations() {
    // Allocating and at once freeing the same offset restores the
    // observable allocation state: the very same requests succeed again
    // with the very same results.
    let mut b = order3();
    assert_eq!(b.allocate(4), (0, 4));
    let (off, _) = b.allocate(2);
    b.free(off);
    assert_eq!(b.allocate(2), (off, 2));
    assert_eq!(b.allocate(2), (6, 2));
}

#[test]
fn double_free_is_a_silent_no_op() {
    let mut b = order3();
    let (off, _) = b.allocate(4);
    b.free(off);
    // Freeing again changes nothing and does not crash.
    b.free(off);
    assert_eq!(b.allocate(8), (0, 8));
}

#[test]
fn freeing_an_unallocated_offset_changes_nothing() {
    let mut b = order3();
    assert_eq!(b.allocate(4), (0, 4));
    // Offset 6 lies in the free half: the free is ignored.
    b.free(6);
    assert_eq!(b.allocate(4), (4, 4));
}

#[test]
fn freeing_out_of_range_changes_nothing() {
    let mut b = order3();
    assert_eq!(b.allocate(8), (0, 8));
    b.free(100);
    // The block is still live: nothing else fits.
    assert_eq!(b.allocate(1), (0, 0));
}

#[test]
fn merge_rebuilds_the_whole_range() {
    let mut b = order3();
    let (a, _) = b.allocate(2);
    let (c, _) = b.allocate(2);
    let (d, _) = b.allocate(4);
    b.free(a);
    b.free(c);
    b.free(d);
    // Buddies merged all the way up: one 8-unit block is available again.
    assert_eq!(b.allocate(8), (0, 8));
}

#[test]
fn allocator_trait_is_shared() {
    // The allocator interface hands out byte blocks through the same pool.
    let mut heap = rustboot::heap::init();
    let (ptr, size) = heap.acquire(100);
    assert!(size >= 100);
    assert!(ptr >= rustboot::heap::HEAP_BASE);
    heap.release(ptr);
}

#[test]
fn conservation_under_churn() {
    // Through an arbitrary alloc/free interleaving the granted total
    // never exceeds the managed 16 units, and live ranges stay disjoint.
    let mut b = BuddyAlloc::new(4, Bitv::new(32));
    let mut live: Vec<(usize, usize)> = Vec::new();
    let requests = [3usize, 1, 5, 2, 2, 8, 1, 4];
    for (step, &req) in requests.iter().enumerate() {
        let (off, size) = b.allocate(req);
        if size != 0 {
            live.push((off, size));
        }
        if step % 3 == 2 {
            if let Some((off, _)) = live.pop() {
                b.free(off);
            }
        }
        let total: usize = live.iter().map(|&(_, s)| s).sum();
        assert!(total <= 16);
        for (i, &(o1, s1)) in live.iter().enumerate() {
            assert!(o1 + s1 <= 16);
            for &(o2, s2) in live.iter().skip(i + 1) {
                assert!(o1 + s1 <= o2 || o2 + s2 <= o1);
            }
        }
    }
}
