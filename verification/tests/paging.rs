//! The page-table layer: translation after mapping, demand table
//! allocation counted in frames, directory cloning, and the process
//! handle built on it.

use rustboot::interrupt;
use rustboot::mm::{Prot, VirtRange, WRITE};
use rustboot::mmu::{self, Mmu, PAGE_SIZE};
use rustboot::mem::Memory;
use rustboot::physical::FrameAllocator;
use rustboot::process::Process;

const HANDLER: u32 = 0x10_0000;
const THUNK: u32 = 0x10_4000;

fn booted() -> (Mmu, usize) {
    let frames = FrameAllocator::init(10, 0x40_0000);
    let mut ints = interrupt::Table::new();
    ints.set_isr(interrupt::PAGE_FAULT, true, HANDLER, THUNK);
    ints.load();
    let mut mmu = Mmu::new(frames);
    let dir = mmu::init(&mut mmu, &ints).unwrap().as_ptr();
    (mmu, dir)
}

#[test]
fn init_identity_maps_the_low_slot() {
    let (mmu, dir) = booted();
    // The lowest directory slot's span translates to itself, PRESENT|RW.
    let e = mmu.translate(dir, 0x1000).unwrap();
    assert_eq!(e.0, 0x1003);
    let e = mmu.translate(dir, 0x3F5ABC).unwrap();
    assert_eq!(e.0, 0x3F5003);
    // Past the identity slot nothing is mapped.
    assert!(mmu.translate(dir, 0x40_0000).is_none());
}

#[test]
fn set_page_is_read_back_by_the_walk() {
    let (mut mmu, dir) = booted();
    let frame = mmu.alloc_frames(1).unwrap();
    let ok = mmu.set_page(dir, 0x50_0000, frame, 3);
    assert!(ok.is_some());
    // The walk yields exactly the frame with the flags.
    let e = mmu.translate(dir, 0x50_0000).unwrap();
    assert_eq!(e.0, frame.as_ptr() + 3);
    assert_eq!(e.physical().as_ptr(), frame.as_ptr());
    assert!(e.present());
}

#[test]
fn mapping_one_page_allocates_one_table_frame() {
    // Mapping a single page at 0x00400000 in a directory whose slot is
    // empty allocates exactly one fresh table frame, and the translation
    // with the low bits masked is the frame the allocator returned.
    let (mut mmu, dir) = booted();
    let frame = mmu.alloc_frames(1).unwrap();
    let before = mmu.frame_allocations();
    let table = mmu.set_page(dir, 0x40_0000, frame, 3).unwrap();
    assert_eq!(table % 0x1000, 0);
    assert_eq!(mmu.frame_allocations(), before + 1);
    let e = mmu.translate(dir, 0x40_0000).unwrap();
    assert_eq!(e.0 & !0xFFF, frame.as_ptr());
    // A second page in the same slot reuses the table: no new frame
    // beyond the data frame itself.
    let frame2 = mmu.alloc_frames(1).unwrap();
    let before2 = mmu.frame_allocations();
    assert!(mmu.set_page(dir, 0x40_1000, frame2, 3).is_some());
    assert_eq!(mmu.frame_allocations(), before2);
}

#[test]
fn map_frame_backs_the_page_with_a_fresh_frame() {
    let (mut mmu, dir) = booted();
    let p = mmu.map_frame(dir, 0x7F_C000, 2).unwrap();
    let e = mmu.translate(dir, 0x7F_C000).unwrap();
    assert_eq!(e.0, p.as_ptr() + 3);
}

#[test]
fn clone_shares_the_kernel_region_and_empties_the_user_region() {
    let (mut mmu, dir) = booted();
    let clone = mmu.clone_directory(dir).unwrap().as_ptr();
    assert_ne!(clone, dir);
    // The source's identity-mapped user slot is not shared: the clone's
    // user region starts empty.
    assert!(mmu.translate(clone, 0x1000).is_none());
    // Populating the clone's user region never alters the source.
    let frame = mmu.alloc_frames(1).unwrap();
    assert!(mmu.set_page(clone, 0x1000, frame, 3).is_some());
    let via_clone = mmu.translate(clone, 0x1000).unwrap();
    assert_eq!(via_clone.0, frame.as_ptr() + 3);
    let via_src = mmu.translate(dir, 0x1000).unwrap();
    assert_eq!(via_src.0, 0x1003);
}

#[test]
fn process_forks_the_active_space_and_enters_it() {
    let (mut mmu, dir) = booted();
    let proc = Process::new(&mut mmu).unwrap();
    assert_ne!(proc.paging.as_ptr(), dir);
    assert_eq!(proc.eip, 0);
    assert_eq!(proc.esp, 0);
    let (ip, sp) = proc.enter(&mut mmu);
    assert_eq!((ip, sp), (0, 0));
    assert_eq!(mmu.active().unwrap(), proc.paging.as_ptr());
}

#[test]
fn process_mmap_maps_its_own_pages() {
    let (mut mmu, dir) = booted();
    let proc = Process::new(&mut mmu).unwrap();
    let range = proc
        .mmap(&mut mmu, 0x60_0000, 2 * PAGE_SIZE, Prot(WRITE))
        .unwrap();
    assert_eq!(range.vaddr, 0x60_0000);
    assert_eq!(range.len, 2 * PAGE_SIZE);
    // Both pages of the range translate, writable and user-visible, and
    // each is backed by its own fresh frame.
    let e0 = mmu.translate(proc.paging.as_ptr(), 0x60_0000).unwrap();
    let e1 = mmu.translate(proc.paging.as_ptr(), 0x60_1000).unwrap();
    assert!(e0.present() && e1.present());
    assert_eq!(e0.0 & 7, 7);
    assert_ne!(e0.physical().as_ptr(), e1.physical().as_ptr());
    // The kernel directory saw none of it.
    assert!(mmu.translate(dir, 0x60_0000).is_none());
}

#[test]
fn virt_range_walks_whole_pages() {
    let r = VirtRange::new(0x1234, 0x2000);
    let mut frames = r.iter();
    assert_eq!(frames.next(), Some(0x1000));
    assert_eq!(frames.next(), Some(0x2000));
    assert_eq!(frames.next(), Some(0x3000));
    assert_eq!(frames.next(), None);
}

#[test]
fn frame_allocator_issues_and_reclaims() {
    let mut f = FrameAllocator::init(4, 0x10_0000);
    let a = f.alloc_frames(1).unwrap();
    let b = f.alloc_frames(1).unwrap();
    assert_ne!(a.as_ptr(), b.as_ptr());
    assert_eq!(a.as_ptr() % 0x1000, 0);
    assert_eq!(f.allocation_count(), 2);
    f.free_frames(a);
    // A zeroed grant reuses the freed frame — the lowest available — and
    // clears exactly its bytes in the physical region.
    let mut m = Memory::new(0x10_0000, 16 * PAGE_SIZE);
    m.write(0x10_0000, 0x5A);
    m.write(0x10_0000 + PAGE_SIZE, 0x5A);
    let c = f.zero_alloc_frames(&mut m, 1).unwrap();
    assert_eq!(c.as_ptr(), a.as_ptr());
    assert_eq!(m.read(c.as_ptr()), 0);
    // A byte outside the granted frame kept its value.
    assert_eq!(m.read(0x10_0000 + PAGE_SIZE), 0x5A);
}
