//! The physical frame allocator: the kernel's sole source of physical
//! memory, a byte allocator whose unit is one page frame.

use vstd::arithmetic::power2::{lemma2_to64, lemma_pow2_pos, pow2};
use vstd::prelude::*;

use crate::allocator::{
    block_start, covered, request_level, units_needed, Alloc, BuddyAlloc, MAX_ORDER,
};
use crate::bitv::Bitv;
use crate::mem::Memory;

verus! {

/// Bytes per page frame.
pub const PAGE_SIZE: usize = 0x1000;

/// The log2 of [`PAGE_SIZE`].
pub const LOG2_PAGE_SIZE: usize = 12;

/// A typed physical address: by convention not dereferenced directly, and
/// owned by whoever the frame allocator issued it to.
#[derive(Clone, Copy, Debug, PartialEq, Eq, Structural)]
pub struct Phys {
    addr: usize,
}

impl Phys {
    /// The address held.
    pub closed spec fn addr_spec(&self) -> int {
        self.addr as int
    }

    /// A physical address at the given byte offset.
    pub fn at(offset: usize) -> (r: Phys)
        ensures
            r.addr_spec() == offset,
    {
        Phys { addr: offset }
    }

    /// The address back as a plain integer.
    pub fn as_ptr(&self) -> (r: usize)
        ensures
            r == self.addr_spec(),
    {
        self.addr
    }
}

/// The allocator of physical page frames.
pub struct FrameAllocator {
    pool: Alloc,
    allocations: usize,
}

impl FrameAllocator {
    /// The backing byte allocator.
    pub closed spec fn pool_spec(&self) -> Alloc {
        self.pool
    }

    /// How many grants this allocator has handed out.
    pub closed spec fn allocations_spec(&self) -> int {
        self.allocations as int
    }

    /// The first managed physical address.
    pub open spec fn base_spec(&self) -> int {
        self.pool_spec().base_spec()
    }

    /// The live allocations, keyed by frame index with frame counts.
    pub open spec fn live(&self) -> Map<int, int> {
        self.pool_spec().live()
    }

    /// The total of the granted frame-block sizes.
    pub open spec fn used(&self) -> int {
        self.pool_spec().parent_spec().used()
    }

    /// The managed frame count.
    pub open spec fn frames(&self) -> int {
        pow2(self.pool_spec().parent_spec().order_spec()) as int
    }

    /// The address of the frame with the given index.
    pub open spec fn addr_of(&self, unit: int) -> int {
        self.base_spec() + unit * (PAGE_SIZE as int)
    }

    /// The frame index holding the given address.
    pub open spec fn unit_of(&self, addr: int) -> int {
        (addr - self.base_spec()) / (PAGE_SIZE as int)
    }

    /// Well-formedness: page-sized units from a page-aligned base.
    pub open spec fn wf(&self) -> bool {
        &&& self.pool_spec().wf()
        &&& self.pool_spec().el_size_spec() == LOG2_PAGE_SIZE
        &&& self.base_spec() % (PAGE_SIZE as int) == 0
        &&& self.allocations_spec() <= usize::MAX
    }

    /// Builds the allocator for `pow2(order)` frames starting at the
    /// page-aligned physical address `base`.
    pub fn init(order: usize, base: usize) -> (r: FrameAllocator)
        requires
            order <= MAX_ORDER,
            base % 0x1000 == 0,
            base + pow2(order as nat) * 0x1000 <= usize::MAX,
        ensures
            r.wf(),
            r.base_spec() == base,
            r.frames() == pow2(order as nat),
            r.live() == Map::<int, int>::empty(),
            r.used() == 0,
            r.allocations_spec() == 0,
            forall|target: nat| target <= order ==> r.pool_spec().parent_spec().free_at(target),
    {
        proof {
            lemma2_to64();
            crate::allocator::lemma_request_level_spans(0);
        }
        let cells = crate::allocator::pow2_usize(order + 1);
        let tree = BuddyAlloc::new(order, Bitv::new(cells));
        let pool = Alloc::new(tree, base, LOG2_PAGE_SIZE);
        FrameAllocator { pool, allocations: 0 }
    }

    /// Grants `count` page frames, rounded up to a power of two; `None`
    /// reports exhaustion of physical memory, which the kernel treats as
    /// fatal.
    pub fn alloc_frames(&mut self, count: usize) -> (r: Option<Phys>)
        requires
            old(self).wf(),
            old(self).allocations_spec() < usize::MAX,
        ensures
            final(self).wf(),
            final(self).base_spec() == old(self).base_spec(),
            final(self).frames() == old(self).frames(),
            r is None ==> *final(self) == *old(self) && !avail_for(*old(self), count as int),
            r matches Some(p) ==> final(self).allocations_spec() == old(self).allocations_spec()
                + 1,
            r matches Some(p) ==> (p.addr_spec() - old(self).base_spec()) % (PAGE_SIZE as int)
                == 0 && old(self).base_spec() <= p.addr_spec() && p.addr_spec() + pow2(
                request_level(count as nat),
            ) * (PAGE_SIZE as int) <= old(self).base_spec() + old(self).frames() * (
            PAGE_SIZE as int),
            r matches Some(p) ==> !old(self).live().dom().contains(old(self).unit_of(p.addr_spec()))
                && final(self).live() == old(self).live().insert(
                old(self).unit_of(p.addr_spec()),
                pow2(request_level(count as nat)) as int,
            ),
            r matches Some(p) ==> avail_for(*old(self), count as int),
            r matches Some(p) ==> final(self).used() == old(self).used() + pow2(
                request_level(count as nat),
            ),
    {
        proof {
            lemma2_to64();
        }
        let ghost pre = *self;
        let cap = crate::allocator::pow2_usize(self.pool.order());
        if count > cap {
            proof {
                lemma_too_many(*self, count as int);
            }
            return None;
        }
        proof {
            assert(count * 0x1000 <= cap * 0x1000) by (nonlinear_arith)
                requires
                    count <= cap,
            ;
            assert(cap * 0x1000 == pre.pool_spec().capacity_bytes()) by {
                vstd::arithmetic::power2::lemma_pow2_adds(
                    pre.pool_spec().parent_spec().order_spec(),
                    12,
                );
            }
            assert(pre.pool_spec().capacity_bytes() <= usize::MAX);
            assert(count * 0x1000 <= cap * 0x1000);
            assert(count * 0x1000 <= usize::MAX);
        }
        let size = count * PAGE_SIZE;
        proof {
            if count > 0 {
                vstd::arithmetic::div_mod::lemma_fundamental_div_mod_converse(
                    count * 0x1000 - 1,
                    0x1000,
                    count - 1,
                    0xFFF,
                );
                assert(units_needed(size as int, 12) == count);
            } else {
                assert(units_needed(0, 12) == 0);
            }
        }
        let (addr, got) = self.pool.allocate(size);
        if got == 0 {
            return None;
        }
        self.allocations = self.allocations + 1;
        proof {
            let unit = pow2(12) as int;
            let x = addr - pre.base_spec();
            let al = got as int;
            let pw = pow2(request_level(count as nat)) as int;
            lemma_pow2_pos(request_level(count as nat));
            assert(al == pw * unit);
            assert(al > 0) by (nonlinear_arith)
                requires
                    pw > 0,
                    unit > 0,
                    al == pw * unit,
            ;
            let q = x / al;
            vstd::arithmetic::div_mod::lemma_fundamental_div_mod(x, al);
            assert(x == 0x1000 * (pw * q)) by (nonlinear_arith)
                requires
                    x == al * q + x % al,
                    x % al == 0,
                    al == pw * unit,
                    unit == 0x1000,
            ;
            vstd::arithmetic::div_mod::lemma_mod_multiples_basic(pw * q, 0x1000);
            assert(x % 0x1000 == 0);
            assert((got as int) / unit == pw) by {
                vstd::arithmetic::div_mod::lemma_div_multiples_vanish(pw, unit);
            }
        }
        Some(Phys::at(addr))
    }

    /// Grants `count` frames and zero-fills exactly their bytes in the
    /// physical region `m`, which must be the one this allocator manages.
    /// `None` reports exhaustion, which the kernel treats as fatal.
    pub fn zero_alloc_frames(&mut self, m: &mut Memory, count: usize) -> (r: Option<Phys>)
        requires
            old(self).wf(),
            old(self).allocations_spec() < usize::MAX,
            old(m).wf(),
            old(m).base_spec() == old(self).base_spec(),
            old(m)@.len() == old(self).frames() * PAGE_SIZE,
        ensures
            final(self).wf(),
            final(self).base_spec() == old(self).base_spec(),
            final(self).frames() == old(self).frames(),
            final(m).base_spec() == old(m).base_spec(),
            final(m)@.len() == old(m)@.len(),
            r is None ==> *final(self) == *old(self) && *final(m) == *old(m) && !avail_for(
                *old(self),
                count as int,
            ),
            r matches Some(p) ==> final(self).allocations_spec() == old(self).allocations_spec()
                + 1,
            r matches Some(p) ==> (p.addr_spec() - old(self).base_spec()) % (PAGE_SIZE as int)
                == 0 && old(self).base_spec() <= p.addr_spec() && p.addr_spec() + pow2(
                request_level(count as nat),
            ) * (PAGE_SIZE as int) <= old(self).base_spec() + old(self).frames() * (
            PAGE_SIZE as int),
            r matches Some(p) ==> !old(self).live().dom().contains(old(self).unit_of(p.addr_spec()))
                && final(self).live() == old(self).live().insert(
                old(self).unit_of(p.addr_spec()),
                pow2(request_level(count as nat)) as int,
            ),
            r matches Some(p) ==> avail_for(*old(self), count as int),
            r matches Some(p) ==> final(self).used() == old(self).used() + pow2(
                request_level(count as nat),
            ),
            r matches Some(p) ==> forall|i: int|
                p.addr_spec() - old(m).base_spec() <= i < p.addr_spec() - old(m).base_spec()
                    + pow2(request_level(count as nat)) * (PAGE_SIZE as int) ==> final(m)@[i] == 0,
            r matches Some(p) ==> forall|i: int|
                0 <= i < old(m)@.len() && !(p.addr_spec() - old(m).base_spec() <= i
                    < p.addr_spec() - old(m).base_spec() + pow2(request_level(count as nat)) * (
                PAGE_SIZE as int)) ==> final(m)@[i] == old(m)@[i],
    {
        proof {
            lemma2_to64();
        }
        let ghost pre = *self;
        let cap = crate::allocator::pow2_usize(self.pool.order());
        if count > cap {
            proof {
                lemma_too_many(*self, count as int);
            }
            return None;
        }
        proof {
            assert(count * 0x1000 <= cap * 0x1000) by (nonlinear_arith)
                requires
                    count <= cap,
            ;
            assert(cap * 0x1000 == pre.pool_spec().capacity_bytes()) by {
                vstd::arithmetic::power2::lemma_pow2_adds(
                    pre.pool_spec().parent_spec().order_spec(),
                    12,
                );
            }
            assert(pre.pool_spec().capacity_bytes() <= usize::MAX);
            assert(count * 0x1000 <= cap * 0x1000);
            assert(count * 0x1000 <= usize::MAX);
        }
        let size = count * PAGE_SIZE;
        proof {
            if count > 0 {
                vstd::arithmetic::div_mod::lemma_fundamental_div_mod_converse(
                    count * 0x1000 - 1,
                    0x1000,
                    count - 1,
                    0xFFF,
                );
                assert(units_needed(size as int, 12) == count);
            } else {
                assert(units_needed(0, 12) == 0);
            }
        }
        let (addr, got) = self.pool.zero_allocate(m, size);
        if got == 0 {
            return None;
        }
        self.allocations = self.allocations + 1;
        proof {
            let unit = pow2(12) as int;
            let x = addr - pre.base_spec();
            let al = got as int;
            let pw = pow2(request_level(count as nat)) as int;
            lemma_pow2_pos(request_level(count as nat));
            assert(al == pw * unit);
            assert(al > 0) by (nonlinear_arith)
                requires
                    pw > 0,
                    unit > 0,
                    al == pw * unit,
            ;
            let q = x / al;
            vstd::arithmetic::div_mod::lemma_fundamental_div_mod(x, al);
            assert(x == 0x1000 * (pw * q)) by (nonlinear_arith)
                requires
                    x == al * q + x % al,
                    x % al == 0,
                    al == pw * unit,
                    unit == 0x1000,
            ;
            vstd::arithmetic::div_mod::lemma_mod_multiples_basic(pw * q, 0x1000);
            assert(x % 0x1000 == 0);
            assert((got as int) / unit == pw) by {
                vstd::arithmetic::div_mod::lemma_div_multiples_vanish(pw, unit);
            }
        }
        Some(Phys::at(addr))
    }

    /// Returns frames to the pool: the issued address must come back
    /// exactly once.  An address outside the pool, or one whose frame is
    /// not granted, is silently ignored.
    pub fn free_frames(&mut self, p: Phys)
        requires
            old(self).wf(),
        ensures
            final(self).wf(),
            final(self).base_spec() == old(self).base_spec(),
            final(self).frames() == old(self).frames(),
            final(self).allocations_spec() == old(self).allocations_spec(),
            (old(self).base_spec() <= p.addr_spec() < old(self).base_spec() + old(self).frames()
                * (PAGE_SIZE as int) && covered(
                old(self).live(),
                old(self).unit_of(p.addr_spec()),
            )) ==> final(self).live() == old(self).live().remove(
                block_start(old(self).live(), old(self).unit_of(p.addr_spec())),
            ),
            !(old(self).base_spec() <= p.addr_spec() < old(self).base_spec() + old(self).frames()
                * (PAGE_SIZE as int) && covered(
                old(self).live(),
                old(self).unit_of(p.addr_spec()),
            )) ==> final(self).live() == old(self).live(),
    {
        proof {
            lemma2_to64();
        }
        let addr = p.as_ptr();
        self.pool.free(addr);
    }

    /// How many grants this allocator has handed out so far.
    pub fn allocation_count(&self) -> (r: usize)
        ensures
            r == self.allocations_spec(),
    {
        self.allocations
    }
}

/// Whether a request for `count` frames can still be satisfied.
pub open spec fn avail_for(a: FrameAllocator, count: int) -> bool {
    a.pool_spec().parent_spec().free_at(request_level(count as nat))
}

/// A request for more frames than the pool manages finds nothing.
proof fn lemma_too_many(a: FrameAllocator, count: int)
    requires
        a.wf(),
        count > pow2(a.pool_spec().parent_spec().order_spec()),
    ensures
        !avail_for(a, count),
{
    let ord = a.pool_spec().parent_spec().order_spec();
    crate::allocator::lemma_request_level_spans(count as nat);
    if request_level(count as nat) <= ord {
        if request_level(count as nat) < ord {
            vstd::arithmetic::power2::lemma_pow2_strictly_increases(
                request_level(count as nat),
                ord,
            );
        }
        assert(false);
    }
    crate::allocator::lemma_avail_level_too_high(
        a.pool_spec().parent_spec().tree_view(),
        0,
        ord,
        request_level(count as nat),
    );
}

} // verus!
