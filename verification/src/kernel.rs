//! The kernel's boot-time assembly of the memory subsystem: the physical
//! frame pool, the heap, the interrupt table with its page-fault vector,
//! the page-table manager with paging enabled, and the first process
//! handle.

use vstd::prelude::*;

use crate::allocator::Alloc;
use crate::interrupt;
use crate::mem::Memory;
use crate::mmu::{self, masked, translate_spec, Mmu, SLOT_SPAN};
use crate::physical::{FrameAllocator, Phys};
use crate::process::Process;

verus! {

/// The first physical address the frame pool manages.
pub const FRAMES_BASE: usize = 0x200_000;

/// The frame pool's buddy order: it manages `pow2` of it many frames.
pub const FRAMES_ORDER: usize = 13;

/// The assembled kernel core.
pub struct Kernel {
    pub heap: Alloc,
    pub interrupts: interrupt::Table,
    pub mmu: Mmu,
    pub process: Process,
}

impl Kernel {
    /// Everything assembled and consistent: the heap and page-table
    /// manager are sound, the interrupt table is loaded with the
    /// page-fault vector bound, paging is live, and the first process
    /// holds the active directory.
    pub open spec fn wf(&self) -> bool {
        &&& self.heap.wf()
        &&& self.interrupts.wf()
        &&& self.interrupts.isr_installed(interrupt::PAGE_FAULT as int)
        &&& self.interrupts.loaded_spec()
        &&& self.mmu.wf()
        &&& self.mmu.paging_spec()
        &&& self.mmu.active_spec() == Option::Some(self.process.paging.addr_spec())
        &&& self.mmu.store_spec().dom().contains(self.process.paging.addr_spec())
    }

    /// Boots the memory core: builds the frame pool and the heap, installs
    /// and loads the interrupt table — binding the page-fault vector to
    /// the handler at `fault_handler` through a thunk at `fault_thunk` —
    /// then builds the identity-mapped kernel directory and switches
    /// paging on.  `None` reports physical-memory exhaustion.
    pub fn init(fault_handler: u32, fault_thunk: u32) -> (r: Option<Kernel>)
        ensures
            r is Some,
            r matches Some(k) ==> k.wf(),
            r matches Some(k) ==> forall|v: int|
                0 <= v < SLOT_SPAN ==> translate_spec(
                    k.mmu.store_spec(),
                    k.process.paging.addr_spec(),
                    v,
                ) == Option::Some(masked(v) + 3),
    {
        proof {
            vstd::arithmetic::power2::lemma2_to64();
        }
        let frames = FrameAllocator::init(FRAMES_ORDER, FRAMES_BASE);
        let heap = crate::heap::init();
        let mut interrupts = interrupt::Table::new();
        interrupts.set_isr(interrupt::PAGE_FAULT, true, fault_handler, fault_thunk);
        interrupts.load();
        let mut mmu = Mmu::new(frames);
        let ghost m0 = mmu;
        let dir = match mmu::init(&mut mmu, &interrupts) {
            Some(d) => d,
            None => {
                proof {
                    // the fresh order-13 pool cannot be exhausted by two
                    // single-frame grants
                    crate::allocator::lemma_avail_unit(
                        &mmu.frames_spec().pool_spec().parent_spec(),
                    );
                    assert(crate::allocator::request_level(1nat) == 0);
                    assert(mmu.frames_spec().used() <= 2);
                    assert(mmu.frames_spec().pool_spec().parent_spec().capacity()
                        == vstd::arithmetic::power2::pow2(13)) by {
                        vstd::arithmetic::power2::lemma2_to64();
                    }
                    assert(vstd::arithmetic::power2::pow2(13) == 8192) by {
                        vstd::arithmetic::power2::lemma2_to64();
                    }
                    assert(false);
                }
                return None;
            },
        };
        let process = Process { eip: 0, esp: 0, paging: dir };
        Some(Kernel { heap, interrupts, mmu, process })
    }

    /// Grants `count` physical frames from the kernel's pool; `None`
    /// reports exhaustion — and only exhaustion — which the kernel treats
    /// as fatal.
    pub fn alloc_frames(&mut self, count: usize) -> (r: Option<Phys>)
        requires
            old(self).wf(),
            old(self).mmu.frames_spec().allocations_spec() < usize::MAX,
        ensures
            final(self).wf(),
            final(self).mmu.store_spec() == old(self).mmu.store_spec(),
            final(self).heap == old(self).heap,
            final(self).process == old(self).process,
            final(self).interrupts == old(self).interrupts,
            r is None ==> *final(self) == *old(self) && !crate::physical::avail_for(
                old(self).mmu.frames_spec(),
                count as int,
            ),
            r matches Some(p) ==> final(self).mmu.frames_spec().allocations_spec() == old(
                self,
            ).mmu.frames_spec().allocations_spec() + 1 && (p.addr_spec() - old(
                self,
            ).mmu.frames_spec().base_spec()) % 0x1000 == 0,
            r matches Some(p) ==> !old(self).mmu.frames_spec().live().dom().contains(
                old(self).mmu.frames_spec().unit_of(p.addr_spec()),
            ) && final(self).mmu.frames_spec().live() == old(
                self,
            ).mmu.frames_spec().live().insert(
                old(self).mmu.frames_spec().unit_of(p.addr_spec()),
                vstd::arithmetic::power2::pow2(
                    crate::allocator::request_level(count as nat),
                ) as int,
            ),
    {
        self.mmu.alloc_frames(count)
    }

    /// Grants `count` physical frames zero-filled in the physical region
    /// `m`, which must be the frame pool's own; `None` reports exhaustion.
    pub fn zero_alloc_frames(&mut self, m: &mut Memory, count: usize) -> (r: Option<Phys>)
        requires
            old(self).wf(),
            old(self).mmu.frames_spec().allocations_spec() < usize::MAX,
            old(m).wf(),
            old(m).base_spec() == old(self).mmu.frames_spec().base_spec(),
            old(m)@.len() == old(self).mmu.frames_spec().frames()
                * crate::physical::PAGE_SIZE,
        ensures
            final(self).wf(),
            final(self).mmu.store_spec() == old(self).mmu.store_spec(),
            final(self).heap == old(self).heap,
            final(self).process == old(self).process,
            final(self).interrupts == old(self).interrupts,
            final(m).base_spec() == old(m).base_spec(),
            final(m)@.len() == old(m)@.len(),
            r is None ==> *final(self) == *old(self) && *final(m) == *old(m)
                && !crate::physical::avail_for(old(self).mmu.frames_spec(), count as int),
            r matches Some(p) ==> final(self).mmu.frames_spec().allocations_spec() == old(
                self,
            ).mmu.frames_spec().allocations_spec() + 1 && (p.addr_spec() - old(
                self,
            ).mmu.frames_spec().base_spec()) % 0x1000 == 0,
            r matches Some(p) ==> forall|i: int|
                p.addr_spec() - old(m).base_spec() <= i < p.addr_spec() - old(m).base_spec()
                    + vstd::arithmetic::power2::pow2(
                    crate::allocator::request_level(count as nat),
                ) * 0x1000 ==> final(m)@[i] == 0,
    {
        self.mmu.zero_alloc_frames(m, count)
    }
}

} // verus!
