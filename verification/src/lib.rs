//! A verified model of a small kernel's memory-management core: the buddy
//! allocator over a packed 2-bit tree, the byte-addressed allocator wrapper,
//! the physical frame allocator, the two-level page-table layer with
//! directory cloning, the interrupt descriptor table, and the process
//! address-space handle.

pub mod allocator;
pub mod arm;
pub mod bitv;
pub mod elf;
pub mod gdt;
pub mod heap;
pub mod interrupt;
pub mod kernel;
pub mod mem;
pub mod mm;
pub mod mmu;
pub mod physical;
pub mod process;
pub mod reg;
pub mod screen;
pub mod syscall;
pub mod vga;
