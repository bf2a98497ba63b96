//! Descriptor tables and the syscall dispatcher: gate packing, thunk
//! binding, controller masks, segment descriptors, and the register
//! effects of each system call.

use rustboot::gdt::{Gdt, GdtEntry, CODE_READ, SEG_PRESENT, SIZE_32, STORAGE};
use rustboot::interrupt::{IdtEntry, Isr, Table, GATE_PRESENT, INTR_GATE, PAGE_FAULT};
use rustboot::reg::{DtReg, CR0, CR0_PG, CR3};
use rustboot::syscall::{handler, Context, SyscallRequest};

fn ctx(eax: u32) -> Context {
    Context {
        edi: 7,
        esi: 6,
        ebp: 5,
        esp: 0x9000,
        ebx: 1,
        edx: 3,
        ecx: 2,
        eax,
        ds: 0x10,
        es: 0x10,
        fs: 0x10,
        gs: 0x10,
        int_no: 0x80,
        err_code: 0,
    }
}

#[test]
fn idt_entry_splits_the_handler_address() {
    let e = IdtEntry::new(0xDEAD_BEEF, 8, INTR_GATE | GATE_PRESENT);
    assert_eq!(e.addr_lo, 0xBEEF);
    assert_eq!(e.addr_hi, 0xDEAD);
    assert_eq!(e.sel, 8);
    assert_eq!(e.zero, 0);
    assert_eq!(e.flags, 0x8E);
}

#[test]
fn isr_thunk_bytes() {
    let isr = Isr::new(14, true);
    assert_eq!(isr.push_dummy, 0x90);
    assert_eq!(isr.push, 0x6A);
    assert_eq!(isr.value, 14);
    assert_eq!(isr.jmp, 0xE9);
    assert_eq!(isr.rel, -5);
    let isr2 = Isr::new(3, false);
    assert_eq!(isr2.push_dummy, 0x50);
}

#[test]
fn isr_binding_counts_from_the_thunk_end() {
    let mut isr = Isr::new(14, true);
    let entry = isr.idt_entry(0x20_0000, 0x10_0000);
    // The displacement reaches the handler from past the 8-byte thunk.
    assert_eq!(isr.rel, 0x10_0000 - 8);
    assert_eq!(entry.addr_lo as u32 + 0x10000 * entry.addr_hi as u32, 0x10_0000);
    assert_eq!(entry.flags, 0x8E);
    // A handler below the thunk gives a negative, wrapped displacement.
    let mut isr2 = Isr::new(14, true);
    isr2.idt_entry(0x10_0000, 0x20_0000);
    assert_eq!(isr2.rel, -(0x10_0000i32) - 8);
}

#[test]
fn interrupt_table_installs_and_unmasks() {
    let mut t = Table::new();
    assert_eq!(t.mask(), 0xFFFF);
    assert!(!t.is_loaded());
    t.set_isr(PAGE_FAULT, true, 0x30_0000, 0x31_0000);
    let gate = t.entry(PAGE_FAULT);
    assert_eq!(gate.flags & GATE_PRESENT, GATE_PRESENT);
    // Vector 0 stayed untouched.
    assert_eq!(t.entry(0).flags, 0);
    t.enable_maskable(1, 0x40_0000);
    assert_eq!(t.mask(), 0xFFFF & !(1 << 1));
    t.load();
    assert!(t.is_loaded());
}

#[test]
fn dt_register_packs_the_limit() {
    let r = DtReg::new(0x8_0000, 256, 8);
    assert_eq!(r.size, 2047);
    assert_eq!(r.addr, 0x8_0000);
}

#[test]
fn control_registers_hold_their_values() {
    let mut cr0 = CR0 { value: 0 };
    cr0.write(cr0.read() | CR0_PG);
    assert_eq!(cr0.read(), CR0_PG);
    let mut cr3 = CR3 { value: 0 };
    cr3.write(0x7000);
    assert_eq!(cr3.read(), 0x7000);
}

#[test]
fn flat_descriptor_folds_the_access_bits() {
    let e = GdtEntry::flat(STORAGE | CODE_READ | SIZE_32, 0);
    assert_eq!(e.limit_lo, 0xFFFF);
    assert_eq!(e.base_lo, 0);
    assert_eq!(e.access, (STORAGE | CODE_READ) as u8);
    assert_eq!(e.limit_hi_flags, 0x0F | 0x40);
}

#[test]
fn gdt_enable_sets_the_present_bit() {
    let mut g = Gdt::new();
    let e = GdtEntry::flat(STORAGE | CODE_READ, 0);
    g.enable(1, e);
    assert_eq!(g.entry(1).access & SEG_PRESENT, SEG_PRESENT);
    g.disable(1);
    assert_eq!(g.entry(1).access & SEG_PRESENT, 0);
    g.load(1 << 3, 2 << 3, 5 << 3);
}

#[test]
fn syscall_write_returns_its_count() {
    let mut c = ctx(4);
    let r = handler(&mut c);
    assert_eq!(
        r,
        SyscallRequest::Write { fd: 1, buf: 2, count: 3 }
    );
    assert_eq!(c.eax, 3);
    assert_eq!(c.ebx, 1);
}

#[test]
fn syscall_exit_reports_its_code() {
    let mut c = ctx(1);
    let r = handler(&mut c);
    assert_eq!(r, SyscallRequest::Exit { code: 1 });
    assert_eq!(c.eax, 0);
}

#[test]
fn syscall_stubs_return_zero() {
    for n in [3u32, 5, 6, 23, 243] {
        let mut c = ctx(n);
        assert_eq!(handler(&mut c), SyscallRequest::Nothing);
        assert_eq!(c.eax, 0);
    }
    let mut c = ctx(11);
    assert_eq!(handler(&mut c), SyscallRequest::Exec);
    assert_eq!(c.eax, 0);
}

#[test]
fn syscall_unknown_is_reported_untouched() {
    let mut c = ctx(99);
    let r = handler(&mut c);
    assert_eq!(r, SyscallRequest::Unknown { number: 99 });
    assert_eq!(c.eax, 99);
}

#[test]
fn context_accessors() {
    let mut c = ctx(42);
    assert_eq!(c.syscall_args(), [1, 2, 3, 6, 7, 5]);
    assert_eq!(c.get_arg(), 42);
    c.set_arg(17);
    assert_eq!(c.eax, 17);
}
