//! The global descriptor table: flat segment descriptors and the table
//! that holds, enables and loads them.

use vstd::prelude::*;

verus! {

/// Access flag: 32-bit segment.
pub const SIZE_32: u16 = 0x4000;

/// Access flag: page granularity.
pub const PAGES: u16 = 0x8000;

/// Access flag: the processor touched the segment.
pub const ACCESSED: u16 = 1;

/// Access flag: direction/conforming.
pub const EXTEND: u16 = 2;

/// Access flag: conforming code.
pub const CONFORM: u16 = 4;

/// Access flag: code segment.
pub const CODE: u16 = 8;

/// Access flag: ordinary storage segment.
pub const STORAGE: u16 = 16;

/// The present bit of a descriptor's access byte.
pub const SEG_PRESENT: u8 = 0x80;

/// Readable code segment.
pub const CODE_READ: u16 = 10;

/// Writable data segment.
pub const DATA_WRITE: u16 = 2;

/// One segment descriptor, as the processor lays it out.
#[derive(Clone, Copy, Debug, PartialEq, Eq, Structural)]
pub struct GdtEntry {
    pub limit_lo: u16,
    pub base_lo: u16,
    pub base_hl: u8,
    pub access: u8,
    pub limit_hi_flags: u8,
    pub base_hh: u8,
}

impl GdtEntry {
    /// A descriptor spanning the whole address space from base zero, with
    /// the given access byte and the high access bits folded into the
    /// limit's flag nibble.
    pub fn flat(access: u16, dpl: u8) -> (r: GdtEntry)
        ensures
            r.limit_lo == 0xFFFF,
            r.base_lo == 0 && r.base_hl == 0 && r.base_hh == 0,
            r.access == access % 0x100,
            r.limit_hi_flags == (0x0Fu8 | (((access >> 8) & 0xF0) as u8)),
    {
        let lo = (access & 0xFF) as u8;
        let hi = 0x0Fu8 | (((access >> 8) & 0xF0) as u8);
        proof {
            assert(access & 0xFF == access % 0x100) by (bit_vector);
            assert((access >> 8) & 0xF0 < 0x100) by (bit_vector);
        }
        let r = GdtEntry {
            limit_lo: 0xFFFF,
            base_lo: 0,
            base_hl: 0,
            access: lo,
            limit_hi_flags: hi,
            base_hh: 0,
        };
        r
    }
}

/// The descriptor table and whether it has been loaded.
pub struct Gdt {
    entries: Vec<GdtEntry>,
    loaded: bool,
}

impl Gdt {
    /// The descriptors held.
    pub closed spec fn view(&self) -> Seq<GdtEntry> {
        self.entries@
    }

    /// Whether the table has been loaded into the processor.
    pub closed spec fn loaded_spec(&self) -> bool {
        self.loaded
    }

    /// The table's fixed capacity.
    pub open spec fn wf(&self) -> bool {
        self@.len() == 256
    }

    /// A fresh table of zeroed descriptors, not yet loaded.
    pub fn new() -> (r: Gdt)
        ensures
            r.wf(),
            !r.loaded_spec(),
            forall|i: int| 0 <= i < 256 ==> #[trigger] r@[i].access == 0,
    {
        let mut entries: Vec<GdtEntry> = Vec::new();
        let mut k: usize = 0;
        while k < 256
            invariant
                entries@.len() == k,
                k <= 256,
                forall|i: int| 0 <= i < k ==> #[trigger] entries@[i].access == 0,
            decreases 256 - k,
        {
            entries.push(
                GdtEntry {
                    limit_lo: 0,
                    base_lo: 0,
                    base_hl: 0,
                    access: 0,
                    limit_hi_flags: 0,
                    base_hh: 0,
                },
            );
            k = k + 1;
        }
        Gdt { entries, loaded: false }
    }

    /// Installs a descriptor in slot `n`, marking it present.
    pub fn enable(&mut self, n: usize, entry: GdtEntry)
        requires
            old(self).wf(),
            n < 256,
        ensures
            final(self).wf(),
            final(self)@ == old(self)@.update(
                n as int,
                (GdtEntry { access: entry.access | SEG_PRESENT, ..entry }),
            ),
            final(self)@[n as int].access & SEG_PRESENT == SEG_PRESENT,
            final(self).loaded_spec() == old(self).loaded_spec(),
    {
        let mut e = entry;
        e.access = e.access | SEG_PRESENT;
        proof {
            let a = entry.access;
            assert((a | 0x80) & 0x80 == 0x80) by (bit_vector);
        }
        self.entries.set(n, e);
        proof {
            assert(self@ =~= old(self)@.update(n as int, e));
        }
    }

    /// Clears a slot's present bit.
    pub fn disable(&mut self, n: usize)
        requires
            old(self).wf(),
            n < 256,
        ensures
            final(self).wf(),
            final(self)@[n as int].access & SEG_PRESENT == 0,
            forall|i: int| 0 <= i < 256 && i != n ==> final(self)@[i] == old(self)@[i],
            final(self).loaded_spec() == old(self).loaded_spec(),
    {
        let mut e = self.entries[n];
        e.access = e.access & !SEG_PRESENT;
        proof {
            let a = self.entries@[n as int].access;
            assert((a & !0x80u8) & 0x80 == 0) by (bit_vector);
        }
        self.entries.set(n, e);
        proof {
            assert(self@ =~= old(self)@.update(n as int, e));
        }
    }

    /// Reads the descriptor in slot `n`.
    pub fn entry(&self, n: usize) -> (r: GdtEntry)
        requires
            self.wf(),
            n < 256,
        ensures
            r == self@[n as int],
    {
        self.entries[n]
    }

    /// Loads the table and the segment registers for the given code, data
    /// and thread-local selectors.
    pub fn load(&mut self, code: u16, data: u16, local: u16)
        requires
            old(self).wf(),
        ensures
            final(self).wf(),
            final(self)@ == old(self)@,
            final(self).loaded_spec(),
    {
        self.loaded = true;
    }
}

} // verus!
