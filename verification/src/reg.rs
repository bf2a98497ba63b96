//! Models of the processor's control registers and descriptor-table
//! registers: the state the memory manager reads and writes through
//! privileged instructions.

use vstd::prelude::*;

verus! {

/// The paging-enable bit of the first control register.
pub const CR0_PG: usize = 0x8000_0000;

/// The first control register: global processor control bits.
#[derive(Clone, Copy, Debug, PartialEq, Eq, Structural)]
pub struct CR0 {
    pub value: usize,
}

impl CR0 {
    /// Reads the register.
    pub fn read(&self) -> (r: usize)
        ensures
            r == self.value,
    {
        self.value
    }

    /// Writes the register.
    pub fn write(&mut self, v: usize)
        ensures
            final(self).value == v,
    {
        self.value = v;
    }
}

/// The second control register: the faulting address after a page fault.
#[derive(Clone, Copy, Debug, PartialEq, Eq, Structural)]
pub struct CR2 {
    pub value: usize,
}

impl CR2 {
    /// Reads the faulting address the processor recorded.
    pub fn read(&self) -> (r: usize)
        ensures
            r == self.value,
    {
        self.value
    }
}

/// The third control register: the physical address of the active page
/// directory.
#[derive(Clone, Copy, Debug, PartialEq, Eq, Structural)]
pub struct CR3 {
    pub value: usize,
}

impl CR3 {
    /// Reads the register.
    pub fn read(&self) -> (r: usize)
        ensures
            r == self.value,
    {
        self.value
    }

    /// Writes the register, switching the address space.
    pub fn write(&mut self, v: usize)
        ensures
            final(self).value == v,
    {
        self.value = v;
    }
}

/// A descriptor-table register value: the table's last byte offset and
/// base address, as `lidt`/`lgdt` expect.
#[derive(Clone, Copy, Debug, PartialEq, Eq, Structural)]
pub struct DtReg {
    pub size: u16,
    pub addr: usize,
}

impl DtReg {
    /// The register value for a table of `capacity` entries of
    /// `entry_size` bytes each at `addr`.
    pub fn new(addr: usize, capacity: usize, entry_size: usize) -> (r: DtReg)
        requires
            1 <= capacity * entry_size <= 0x10000,
        ensures
            r.size == capacity * entry_size - 1,
            r.addr == addr,
    {
        DtReg { size: (capacity * entry_size - 1) as u16, addr }
    }
}

} // verus!
