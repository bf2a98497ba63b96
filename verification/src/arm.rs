//! The ARM backend's section-mapped translation and exception vectors:
//! one-level 1 MiB section descriptors in a 4096-entry directory, and the
//! branch instructions written straight into the vector table.

use vstd::prelude::*;

verus! {

/// Section descriptor tag bits.
pub const SECTION: u32 = 0b10010;

/// Section flag: bufferable.
pub const BUFFER: u32 = 4;

/// Section flag: cacheable.
pub const CACHE: u32 = 8;

/// Section flag: writable.
pub const SECTION_RW: u32 = 0x400;

/// Entries in a section directory: one per 1 MiB of address space.
pub const SECTION_ENTRIES: usize = 4096;

/// The hardware exception vectors, in table order; the interrupt vectors
/// sit past a reserved slot.
#[derive(Clone, Copy, Debug, PartialEq, Eq, Structural)]
pub enum Int {
    Reset,
    Undef,
    SWI,
    PrefetchAbort,
    DataAbort,
    IRQ,
    FIQ,
}

impl Int {
    /// The vector-table slot of the exception.
    pub open spec fn vector_spec(&self) -> int {
        match *self {
            Int::Reset => 0,
            Int::Undef => 1,
            Int::SWI => 2,
            Int::PrefetchAbort => 3,
            Int::DataAbort => 4,
            Int::IRQ => 6,
            Int::FIQ => 7,
        }
    }

    /// The vector-table slot of the exception.
    pub fn vector(&self) -> (r: u8)
        ensures
            r == self.vector_spec(),
    {
        match *self {
            Int::Reset => 0,
            Int::Undef => 1,
            Int::SWI => 2,
            Int::PrefetchAbort => 3,
            Int::DataAbort => 4,
            Int::IRQ => 6,
            Int::FIQ => 7,
        }
    }
}

/// The branch instruction word that jumps `rel` bytes ahead of the
/// instruction's own address: the opcode byte over a 24-bit word offset,
/// counted past the two-instruction prefetch.
pub fn branch(rel: u32) -> (r: u32)
    ensures
        r == 0xEA00_0000u32 + (((rel - 8) as u32 / 4) % 0x100_0000),
{
    let r = 0xEA00_0000u32 | ((rel.wrapping_sub(8) >> 2) & 0xFF_FFFF);
    proof {
        let x = rel;
        assert(0xEA00_0000u32 | (((x - 8) as u32 >> 2) & 0xFF_FFFF) == 0xEA00_0000u32 + ((((x
            - 8) as u32) / 4) % 0x100_0000)) by (bit_vector);
        assert(x.wrapping_sub(8) == (x - 8) as u32) by (bit_vector);
    }
    r
}

/// One section descriptor: a 1 MiB-aligned physical base with the section
/// tag and flag bits.
#[derive(Clone, Copy, Debug, PartialEq, Eq, Structural)]
pub struct Descriptor(pub u32);

impl Descriptor {
    /// The descriptor mapping the 1 MiB section at `base` with `flags`.
    pub fn section(base: u32, flags: u32) -> (r: Descriptor)
        requires
            base % 0x10_0000 == 0,
            flags < 0x1000,
        ensures
            r.0 == base + (flags | SECTION),
    {
        proof {
            let b = base;
            let f = flags;
            assert(b | f | 0b10010u32 == b + (f | 0b10010u32)) by (bit_vector)
                requires
                    b % 0x10_0000 == 0,
                    f < 0x1000,
            ;
        }
        Descriptor(base | flags | SECTION)
    }

    /// The physical section base the descriptor points at.
    pub fn base(&self) -> (r: u32)
        ensures
            r == self.0 - self.0 % 0x10_0000,
    {
        let x = self.0;
        proof {
            assert(x & 0xFFF0_0000u32 == x - x % 0x10_0000) by (bit_vector);
        }
        x & 0xFFF0_0000
    }
}

/// A one-level ARM page directory: section descriptors only, one per
/// megabyte.
pub struct PageDirectory {
    entries: Vec<u32>,
}

impl PageDirectory {
    /// The descriptor words.
    pub closed spec fn view(&self) -> Seq<u32> {
        self.entries@
    }

    /// One descriptor per section.
    pub open spec fn wf(&self) -> bool {
        self@.len() == SECTION_ENTRIES
    }

    /// The boot directory: every section identity-mapped with the given
    /// flags, so virtual and physical addresses agree.
    pub fn new_identity(flags: u32) -> (r: PageDirectory)
        requires
            flags < 0x1000,
        ensures
            r.wf(),
            forall|i: int|
                0 <= i < SECTION_ENTRIES ==> r@[i] == i * 0x10_0000 + (flags | SECTION),
    {
        let mut entries: Vec<u32> = Vec::new();
        let mut k: usize = 0;
        while k < SECTION_ENTRIES
            invariant
                entries@.len() == k,
                k <= SECTION_ENTRIES,
                flags < 0x1000,
                forall|i: int| 0 <= i < k ==> entries@[i] == i * 0x10_0000 + (flags | SECTION),
            decreases SECTION_ENTRIES - k,
        {
            proof {
                let kk = k as u32;
                assert(kk < 4096 ==> kk * 0x10_0000 <= 0xFFF0_0000) by (bit_vector);
                assert(kk < 4096 ==> (kk * 0x10_0000) % 0x10_0000 == 0) by (bit_vector);
            }
            let base = (k as u32) * 0x10_0000;
            let d = Descriptor::section(base, flags);
            entries.push(d.0);
            k = k + 1;
        }
        PageDirectory { entries }
    }

    /// Reads the descriptor for the section holding virtual address `v`.
    pub fn get(&self, v: u32) -> (r: Descriptor)
        requires
            self.wf(),
        ensures
            r.0 == self@[v as int / 0x10_0000],
    {
        let i = (v / 0x10_0000) as usize;
        proof {
            vstd::arithmetic::div_mod::lemma_fundamental_div_mod(v as int, 0x10_0000);
            vstd::arithmetic::div_mod::lemma_mod_bound(v as int, 0x10_0000);
            assert(v as int / 0x10_0000 < 4096) by (nonlinear_arith)
                requires
                    v as int == 0x10_0000 * (v as int / 0x10_0000) + (v as int % 0x10_0000),
                    0 <= v as int % 0x10_0000,
                    v <= 0xFFFF_FFFF,
            ;
            vstd::arithmetic::div_mod::lemma_div_pos_is_pos(v as int, 0x10_0000);
        }
        Descriptor(self.entries[i])
    }
}

} // verus!
