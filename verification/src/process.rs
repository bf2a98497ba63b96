//! The process address-space handle: a saved entry point and stack pointer
//! plus the physical address of the process's own page directory, created
//! by cloning the active (kernel) directory.

use vstd::prelude::*;

use crate::mm::{dir_ok_range, page_mapped, prot_flags, range_unmapped, Prot, VirtRange};
use crate::mmu::{clone_entries, Mmu, PAGE_SIZE};
use crate::physical::Phys;

verus! {

/// One process's address space and saved user context.
pub struct Process {
    pub eip: u32,
    pub esp: u32,
    pub paging: Phys,
}

impl Process {
    /// Forks the active address space: the new process shares the kernel
    /// region's tables by reference, starts with an empty user region,
    /// and saves cleared user registers.  `None` reports physical-memory
    /// exhaustion.
    pub fn new(mmu: &mut Mmu) -> (r: Option<Process>)
        requires
            old(mmu).wf(),
            old(mmu).frames_spec().allocations_spec() < usize::MAX,
            old(mmu).active_spec() is Some,
        ensures
            final(mmu).wf(),
            final(mmu).active_spec() == old(mmu).active_spec(),
            final(mmu).paging_spec() == old(mmu).paging_spec(),
            r is None ==> final(mmu).store_spec() == old(mmu).store_spec()
                && !crate::physical::avail_for(old(mmu).frames_spec(), 1),
            r matches Some(p) ==> {
                let src = old(mmu).active_spec()->0;
                &&& p.eip == 0 && p.esp == 0
                &&& p.paging.addr_spec() != src
                &&& !old(mmu).store_spec().dom().contains(p.paging.addr_spec())
                &&& final(mmu).store_spec() == old(mmu).store_spec().insert(
                    p.paging.addr_spec(),
                    clone_entries(old(mmu).store_spec()[src], p.paging.addr_spec()),
                )
            },
    {
        let dir = match mmu.active() {
            Some(d) => d,
            None => {
                proof {
                    assert(false);
                }
                return None;
            },
        };
        let paging = match mmu.clone_directory(dir) {
            Some(p) => p,
            None => {
                return None;
            },
        };
        Some(Process { eip: 0, esp: 0, paging })
    }

    /// Maps `size` bytes at `page_ptr` into this process's own directory,
    /// allocating a fresh frame for each touched page.
    pub fn mmap(&self, mmu: &mut Mmu, page_ptr: usize, size: usize, prot: Prot) -> (r: Option<
        VirtRange,
    >)
        requires
            old(mmu).wf(),
            old(mmu).store_spec().dom().contains(self.paging.addr_spec()),
            page_ptr + size + PAGE_SIZE - 1 <= usize::MAX,
            old(mmu).frames_spec().allocations_spec() + (crate::mm::page_ceil(page_ptr + size)
                - crate::mm::page_floor(page_ptr as int)) / (PAGE_SIZE as int) * 2 < usize::MAX
                - 2,
            dir_ok_range(
                old(mmu).store_spec(),
                self.paging.addr_spec(),
                crate::mm::page_floor(page_ptr as int),
                crate::mm::page_ceil(page_ptr + size),
            ),
        ensures
            final(mmu).wf(),
            final(mmu).active_spec() == old(mmu).active_spec(),
            final(mmu).paging_spec() == old(mmu).paging_spec(),
            r matches Some(range) ==> range.vaddr == page_ptr && range.len == size,
            r is None ==> !crate::physical::avail_for(final(mmu).frames_spec(), 1),
            (r is Some && range_unmapped(
                old(mmu).store_spec(),
                self.paging.addr_spec(),
                crate::mm::page_floor(page_ptr as int),
                crate::mm::page_ceil(page_ptr + size),
            ) && crate::mm::page_ceil(page_ptr + size) <= 0x1_0000_0000) ==> forall|v: int|
                crate::mm::page_floor(page_ptr as int) <= v < crate::mm::page_ceil(
                    page_ptr + size,
                ) && v % (PAGE_SIZE as int) == 0 ==> #[trigger] page_mapped(
                    final(mmu).store_spec(),
                    self.paging.addr_spec(),
                    v,
                    prot_flags(prot) + 1,
                ),
            (r is Some && range_unmapped(
                old(mmu).store_spec(),
                self.paging.addr_spec(),
                crate::mm::page_floor(page_ptr as int),
                crate::mm::page_ceil(page_ptr + size),
            ) && crate::mm::page_ceil(page_ptr + size) <= 0x1_0000_0000) ==> exists|
                g: Map<int, int>,
            |
                #[trigger] crate::mm::maps_fresh_frames(
                    final(mmu).store_spec(),
                    self.paging.addr_spec(),
                    crate::mm::page_floor(page_ptr as int),
                    crate::mm::page_ceil(page_ptr + size),
                    prot_flags(prot) + 1,
                    old(mmu).frames_spec().base_spec(),
                    old(mmu).frames_spec().live(),
                    g,
                ),
    {
        let dir = self.paging.as_ptr();
        VirtRange::new(page_ptr, size).mmap(mmu, dir, prot)
    }

    /// Enters the process: switches the active directory to this
    /// process's.  The non-returning jump to the saved entry point and
    /// stack — privileged register loads and a far jump — is the
    /// platform's final step and is handed back for it to take.
    pub fn enter(&self, mmu: &mut Mmu) -> (r: (u32, u32))
        requires
            old(mmu).wf(),
            old(mmu).store_spec().dom().contains(self.paging.addr_spec()),
        ensures
            final(mmu).wf(),
            final(mmu).active_spec() == Option::Some(self.paging.addr_spec()),
            final(mmu).store_spec() == old(mmu).store_spec(),
            r == (self.eip, self.esp),
    {
        mmu.switch_directory(self.paging);
        (self.eip, self.esp)
    }
}

} // verus!
