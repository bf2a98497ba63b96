//! The kernel heap: a byte-granular buddy-backed allocator used for general
//! dynamic allocation (process structs, interrupt tables, strings).

use vstd::arithmetic::power2::{lemma2_to64, pow2};
use vstd::prelude::*;

use crate::allocator::{covered, request_level, units_needed, Alloc, BuddyAlloc};
use crate::bitv::Bitv;
use crate::mem::Memory;

verus! {

/// The heap's first byte address.
pub const HEAP_BASE: usize = 0x110_000;

/// The heap's buddy order: it manages `pow2` of it many bytes.
pub const HEAP_ORDER: usize = 17;

/// Builds the kernel heap allocator: byte-granular units over a
/// `pow2(HEAP_ORDER)`-byte range from `HEAP_BASE`.
pub fn init() -> (r: Alloc)
    ensures
        r.wf(),
        r.base_spec() == HEAP_BASE,
        r.el_size_spec() == 0,
        r.parent_spec().order_spec() == HEAP_ORDER,
        r.live() == Map::<int, int>::empty(),
        forall|target: nat| target <= HEAP_ORDER ==> r.parent_spec().free_at(target),
{
    proof {
        lemma2_to64();
    }
    let cells = crate::allocator::pow2_usize(HEAP_ORDER + 1);
    let tree = BuddyAlloc::new(HEAP_ORDER, Bitv::new(cells));
    Alloc::new(tree, HEAP_BASE, 0)
}

/// Grants at least `size` heap bytes; `None` reports heap exhaustion,
/// which the kernel treats as fatal.
pub fn malloc_raw(heap: &mut Alloc, size: usize) -> (r: Option<usize>)
    requires
        old(heap).wf(),
    ensures
        final(heap).wf(),
        r is None ==> *final(heap) == *old(heap) && !old(heap).parent_spec().free_at(
            request_level(units_needed(size as int, old(heap).el_size_spec()) as nat),
        ),
        r matches Some(p) ==> exists|g: (usize, usize)|
            g.0 == p && g.1 >= size && #[trigger] Alloc::granted_ok(
                *old(heap),
                *final(heap),
                g,
                size as int,
            ),
{
    let (ptr, got) = heap.allocate(size);
    if got == 0 {
        None
    } else {
        proof {
            let g = (ptr, got);
            assert(Alloc::granted_ok(*old(heap), *heap, g, size as int));
        }
        Some(ptr)
    }
}

/// Grants `count` elements of `elem_size` bytes each, zero-filled in the
/// heap's byte region `m`; `None` reports a size overflow or exhaustion.
pub fn zero_alloc(heap: &mut Alloc, m: &mut Memory, count: usize, elem_size: usize) -> (r: Option<
    usize,
>)
    requires
        old(heap).wf(),
        old(m).wf(),
        old(m).base_spec() == old(heap).base_spec(),
        old(m)@.len() == old(heap).capacity_bytes(),
    ensures
        final(heap).wf(),
        final(m).base_spec() == old(m).base_spec(),
        final(m)@.len() == old(m)@.len(),
        r is None ==> *final(heap) == *old(heap) && *final(m) == *old(m) && (count * elem_size
            > usize::MAX || !old(heap).parent_spec().free_at(
            request_level(units_needed((count * elem_size) as int, old(heap).el_size_spec()) as nat),
        )),
        r matches Some(p) ==> exists|g: (usize, usize)|
            g.0 == p && g.1 >= count * elem_size && #[trigger] Alloc::granted_ok(
                *old(heap),
                *final(heap),
                g,
                (count * elem_size) as int,
            ) && (forall|i: int|
                p - old(m).base_spec() <= i < p - old(m).base_spec() + g.1 ==> final(m)@[i] == 0),
{
    let size = match count.checked_mul(elem_size) {
        Some(s) => s,
        None => {
            return None;
        },
    };
    let (ptr, got) = heap.zero_allocate(m, size);
    if got == 0 {
        None
    } else {
        proof {
            let g = (ptr, got);
            assert(Alloc::granted_ok(*old(heap), *heap, g, size as int));
        }
        Some(ptr)
    }
}

/// Reallocates `ptr` to hold `count` elements of `elem_size` bytes:
/// frees, grants afresh, and copies; a zero total size only frees.
pub fn realloc_raw(heap: &mut Alloc, m: &mut Memory, ptr: usize, count: usize, elem_size: usize) -> (
    r: Option<usize>)
    requires
        old(heap).wf(),
        old(m).wf(),
        old(m).base_spec() == old(heap).base_spec(),
        old(m)@.len() == old(heap).capacity_bytes(),
        old(heap).base_spec() <= ptr,
    ensures
        final(heap).wf(),
        final(heap).base_spec() == old(heap).base_spec(),
        final(m).base_spec() == old(m).base_spec(),
        final(m)@.len() == old(m)@.len(),
        r is None ==> count * elem_size > usize::MAX || count * elem_size == 0 || !final(heap).parent_spec().free_at(
            request_level(units_needed((count * elem_size) as int, old(heap).el_size_spec()) as nat),
        ),
        count * elem_size > usize::MAX ==> *final(heap) == *old(heap) && *final(m) == *old(m),
        0 < count * elem_size <= usize::MAX && r is None ==> final(heap).live()
            == crate::allocator::live_after_free(*old(heap), ptr as int) && *final(m) == *old(m),
        r matches Some(p) ==> count * elem_size > 0 && p + count * elem_size <= old(heap).base_spec() + old(heap).capacity_bytes() && old(heap).base_spec() <= p,
        r matches Some(p) ==> final(heap).live() == crate::allocator::live_after_free(
            *old(heap),
            ptr as int,
        ).insert(
            (p - old(heap).base_spec()) / old(heap).unit(),
            pow2(
                request_level(
                    units_needed((count * elem_size) as int, old(heap).el_size_spec()) as nat,
                ),
            ) as int,
        ),
        r matches Some(p) ==> forall|i: int|
            p - old(m).base_spec() <= i < p - old(m).base_spec() + crate::allocator::min_int(
                pow2(
                    request_level(
                        units_needed((count * elem_size) as int, old(heap).el_size_spec()) as nat,
                    ),
                ) * old(heap).unit(),
                old(heap).base_spec() + old(heap).capacity_bytes() - ptr,
            ) ==> final(m)@[i] == old(m)@[i - p + ptr],
{
    let size = match count.checked_mul(elem_size) {
        Some(s) => s,
        None => {
            return None;
        },
    };
    if size == 0 {
        heap.free(ptr);
        return None;
    }
    let (p, got) = heap.realloc(m, ptr, size);
    if got == 0 {
        None
    } else {
        proof {
            vstd::arithmetic::div_mod::lemma_div_multiples_vanish(
                pow2(
                    request_level(
                        units_needed(size as int, old(heap).el_size_spec()) as nat,
                    ),
                ) as int,
                old(heap).unit(),
            );
        }
        Some(p)
    }
}

/// Returns a heap block to the pool; pointers outside the heap, or inside
/// no granted block, are silently ignored.
pub fn free(heap: &mut Alloc, ptr: usize)
    requires
        old(heap).wf(),
    ensures
        final(heap).wf(),
        final(heap).base_spec() == old(heap).base_spec(),
        final(heap).live() == crate::allocator::live_after_free(*old(heap), ptr as int),
        (ptr < old(heap).base_spec() || ptr >= old(heap).base_spec() + old(heap).capacity_bytes()) ==> *final(heap) == *old(heap),
        (old(heap).base_spec() <= ptr < old(heap).base_spec() + old(heap).capacity_bytes()
            && !covered(old(heap).live(), (ptr - old(heap).base_spec()) / old(heap).unit()))
            ==> *final(heap) == *old(heap),
{
    heap.free(ptr);
}

} // verus!
