//! The interrupt descriptor table: gate entries, the interrupt-service
//! thunks that push a vector number before the common handler, and the
//! table that installs and activates them.  The memory manager depends on
//! this component to have the page-fault vector bound before paging is
//! switched on.

use vstd::prelude::*;

verus! {

/// Gate type bits of an interrupt gate.
pub const INTR_GATE: u8 = 0b1110;

/// Gate type bits of a trap gate.
pub const TRAP_GATE: u8 = 0b1111;

/// The present bit of a gate's flags.
pub const GATE_PRESENT: u8 = 0x80;

/// Hardware vectors in the table.
pub const VECTORS: usize = 256;

/// The page-fault exception vector.
pub const PAGE_FAULT: usize = 14;

/// One interrupt gate: a handler address split around the selector and
/// flag bytes, as the processor lays it out.
#[derive(Clone, Copy, Debug, PartialEq, Eq, Structural)]
pub struct IdtEntry {
    pub addr_lo: u16,
    pub sel: u16,
    pub zero: u8,
    pub flags: u8,
    pub addr_hi: u16,
}

impl IdtEntry {
    /// The handler address the entry points at.
    pub open spec fn addr(&self) -> int {
        self.addr_lo + 0x10000 * self.addr_hi
    }

    /// Whether this entry is marked present.
    pub open spec fn installed(&self) -> bool {
        self.flags & GATE_PRESENT == GATE_PRESENT
    }

    /// A gate for the handler at `func` through selector `sel`.
    pub fn new(func: u32, sel: u16, flags: u8) -> (r: IdtEntry)
        ensures
            r.addr_lo == func % 0x10000,
            r.addr_hi == func / 0x10000,
            r.addr() == func,
            r.sel == sel,
            r.zero == 0,
            r.flags == flags,
    {
        let lo = (func & 0xFFFF) as u16;
        let hi = ((func & 0xFFFF0000) >> 16) as u16;
        proof {
            assert(func & 0xFFFF == func % 0x10000) by (bit_vector);
            assert((func & 0xFFFF0000) >> 16 == func / 0x10000) by (bit_vector);
            assert(func % 0x10000 + 0x10000 * (func / 0x10000) == func) by {
                vstd::arithmetic::div_mod::lemma_fundamental_div_mod(func as int, 0x10000);
            }
        }
        IdtEntry { addr_lo: lo, sel, zero: 0, flags, addr_hi: hi }
    }

    /// The all-zero gate of an untouched slot.
    pub fn empty() -> (r: IdtEntry)
        ensures
            r.addr_lo == 0 && r.sel == 0 && r.zero == 0 && r.flags == 0 && r.addr_hi == 0,
            !r.installed(),
    {
        let r = IdtEntry { addr_lo: 0, sel: 0, zero: 0, flags: 0, addr_hi: 0 };
        proof {
            assert(0u8 & 0x80 == 0) by (bit_vector);
        }
        r
    }
}

/// An interrupt-service thunk: five instruction bytes that push the
/// vector number and jump to the common handler, followed by the jump's
/// 32-bit relative displacement.
#[derive(Clone, Copy, Debug, PartialEq, Eq, Structural)]
pub struct Isr {
    pub push_dummy: u8,
    pub push: u8,
    pub value: u8,
    pub jmp: u8,
    pub rel: i32,
}

/// The thunk's byte length: what a relative jump at its tail is counted
/// from.
pub const ISR_LEN: u32 = 8;

impl Isr {
    /// A thunk for vector `val`: `push eax` pads vectors without an error
    /// code, a `nop` stands in where the processor pushed one; then
    /// `push val` and a relative `jmp` whose displacement starts as `-5`,
    /// pointing the jump back at the thunk itself until it is bound.
    pub fn new(val: u8, code: bool) -> (r: Isr)
        ensures
            r.push_dummy == (if code {
                0x90u8
            } else {
                0x50u8
            }),
            r.push == 0x6a,
            r.value == val,
            r.jmp == 0xe9,
            r.rel == -5,
    {
        Isr {
            push_dummy: if code {
                0x90
            } else {
                0x50
            },
            push: 0x6a,
            value: val,
            jmp: 0xe9,
            rel: -5,
        }
    }

    /// Binds the thunk, laid out at `self_addr`, to the common handler at
    /// `handler`: the jump displacement is counted from the thunk's end,
    /// wrapping as 32-bit address arithmetic does.  Returns an entry that
    /// points at the thunk.
    pub fn idt_entry(&mut self, handler: u32, self_addr: u32) -> (r: IdtEntry)
        ensures
            (final(self).rel as int) % 0x1_0000_0000 == (handler - self_addr - ISR_LEN)
                % 0x1_0000_0000,
            final(self).push_dummy == old(self).push_dummy,
            final(self).push == old(self).push,
            final(self).value == old(self).value,
            final(self).jmp == old(self).jmp,
            r.addr() == self_addr,
            r.sel == 8,
            r.flags == INTR_GATE | GATE_PRESENT,
            r.installed(),
    {
        let end = self_addr.wrapping_add(ISR_LEN);
        let rel_u = handler.wrapping_sub(end);
        let rel: i32 = if rel_u >= 0x8000_0000 {
            -((0xFFFF_FFFFu32 - rel_u) as i32) - 1
        } else {
            rel_u as i32
        };
        proof {
            let w: int = 0x1_0000_0000;
            let h = handler as int;
            let s = self_addr as int;
            assert(end as int == (s + 8) % w) by {
                if s + 8 > u32::MAX {
                    vstd::arithmetic::div_mod::lemma_mod_multiples_vanish(-1, s + 8, w);
                    vstd::arithmetic::div_mod::lemma_small_mod((s + 8 - w) as nat, w as nat);
                } else {
                    vstd::arithmetic::div_mod::lemma_small_mod((s + 8) as nat, w as nat);
                }
            }
            assert(rel_u as int == (h - end) % w) by {
                if h < end {
                    vstd::arithmetic::div_mod::lemma_mod_multiples_vanish(1, h - end, w);
                    vstd::arithmetic::div_mod::lemma_small_mod((h - end + w) as nat, w as nat);
                } else {
                    vstd::arithmetic::div_mod::lemma_small_mod((h - end) as nat, w as nat);
                }
            }
            vstd::arithmetic::div_mod::lemma_sub_mod_noop_right(h, s + 8, w);
            assert((rel as int) % w == rel_u as int) by {
                if rel_u >= 0x8000_0000 {
                    vstd::arithmetic::div_mod::lemma_mod_multiples_vanish(1, rel as int, w);
                    vstd::arithmetic::div_mod::lemma_small_mod(rel_u as nat, w as nat);
                } else {
                    vstd::arithmetic::div_mod::lemma_small_mod(rel_u as nat, w as nat);
                }
            }
            assert((INTR_GATE | GATE_PRESENT) & GATE_PRESENT == GATE_PRESENT) by (bit_vector);
            assert(1u16 << 3 == 8) by (bit_vector);
        }
        self.rel = rel;
        IdtEntry::new(self_addr, 1 << 3, INTR_GATE | GATE_PRESENT)
    }
}

/// The interrupt table: one gate per hardware vector, the controller mask
/// of maskable lines, and whether the table has been activated.
pub struct Table {
    entries: Vec<IdtEntry>,
    mask: u16,
    loaded: bool,
}

impl Table {
    /// The gates.
    pub closed spec fn view(&self) -> Seq<IdtEntry> {
        self.entries@
    }

    /// The maskable-interrupt mask: a set bit keeps the line masked.
    pub closed spec fn mask_spec(&self) -> u16 {
        self.mask
    }

    /// Whether the table has been loaded into the processor.
    pub closed spec fn loaded_spec(&self) -> bool {
        self.loaded
    }

    /// One gate per vector.
    pub open spec fn wf(&self) -> bool {
        self@.len() == VECTORS
    }

    /// Whether a present handler is bound to `vector`.
    pub open spec fn isr_installed(&self, vector: int) -> bool {
        self@[vector].installed()
    }

    /// A fresh table: every gate empty, every maskable line masked,
    /// nothing loaded.
    pub fn new() -> (r: Table)
        ensures
            r.wf(),
            forall|v: int| 0 <= v < VECTORS ==> !r.isr_installed(v),
            r.mask_spec() == 0xFFFFu16,
            !r.loaded_spec(),
    {
        let mut entries: Vec<IdtEntry> = Vec::new();
        let mut k: usize = 0;
        while k < VECTORS
            invariant
                entries@.len() == k,
                k <= VECTORS,
                forall|v: int| 0 <= v < k ==> !entries@[v].installed(),
            decreases VECTORS - k,
        {
            entries.push(IdtEntry::empty());
            k = k + 1;
        }
        Table { entries, mask: 0xFFFF, loaded: false }
    }

    /// Binds an exception vector to a handler: builds the vector's thunk
    /// (laid out at `thunk_addr`) and points the vector's gate at it.
    /// `code` says whether the processor pushes an error code for this
    /// exception.
    pub fn set_isr(&mut self, vector: usize, code: bool, handler: u32, thunk_addr: u32) -> (r: Isr)
        requires
            old(self).wf(),
            vector < VECTORS,
        ensures
            final(self).wf(),
            final(self).isr_installed(vector as int),
            final(self)@[vector as int].addr() == thunk_addr,
            forall|v: int| 0 <= v < VECTORS && v != vector ==> final(self)@[v] == old(self)@[v],
            final(self).mask_spec() == old(self).mask_spec(),
            final(self).loaded_spec() == old(self).loaded_spec(),
            r.value == vector,
            r.push == 0x6a && r.jmp == 0xe9,
            (r.rel as int) % 0x1_0000_0000 == (handler - thunk_addr - ISR_LEN) % 0x1_0000_0000,
    {
        let mut isr = Isr::new(vector as u8, code);
        let entry = isr.idt_entry(handler, thunk_addr);
        self.entries.set(vector, entry);
        proof {
            assert(self@ =~= old(self)@.update(vector as int, entry));
        }
        isr
    }

    /// Binds a maskable interrupt line to a handler and unmasks it at the
    /// controller.
    pub fn enable_maskable(&mut self, irq: usize, handler: u32)
        requires
            old(self).wf(),
            irq < 16,
        ensures
            final(self).wf(),
            final(self).isr_installed(irq as int),
            final(self)@[irq as int].addr() == handler,
            forall|v: int| 0 <= v < VECTORS && v != irq ==> final(self)@[v] == old(self)@[v],
            final(self).mask_spec() == old(self).mask_spec() & !((1u16 << (irq as u16))),
            final(self).loaded_spec() == old(self).loaded_spec(),
    {
        let entry = IdtEntry::new(handler, 1 << 3, INTR_GATE | GATE_PRESENT);
        proof {
            assert((INTR_GATE | GATE_PRESENT) & GATE_PRESENT == GATE_PRESENT) by (bit_vector);
            assert(1u16 << 3 == 8) by (bit_vector);
        }
        self.entries.set(irq, entry);
        self.mask = self.mask & !(1u16 << (irq as u16));
        proof {
            assert(self@ =~= old(self)@.update(irq as int, entry));
        }
    }

    /// Reads the entry bound to `vector`.
    pub fn entry(&self, vector: usize) -> (r: IdtEntry)
        requires
            self.wf(),
            vector < VECTORS,
        ensures
            r == self@[vector as int],
    {
        self.entries[vector]
    }

    /// The controller mask as currently programmed.
    pub fn mask(&self) -> (r: u16)
        ensures
            r == self.mask_spec(),
    {
        self.mask
    }

    /// Whether the table has been activated.
    pub fn is_loaded(&self) -> (r: bool)
        ensures
            r == self.loaded_spec(),
    {
        self.loaded
    }

    /// Activates the table: loads the table-base register and unmasks
    /// interrupts at the processor.
    pub fn load(&mut self)
        requires
            old(self).wf(),
        ensures
            final(self).wf(),
            final(self)@ == old(self)@,
            final(self).mask_spec() == old(self).mask_spec(),
            final(self).loaded_spec(),
    {
        self.loaded = true;
    }
}

} // verus!
