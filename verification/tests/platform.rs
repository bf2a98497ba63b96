//! The platform leaves: pixel packing, VGA cells, ARM sections and
//! vectors, ELF headers, and the assembled kernel boot.

use rustboot::arm::{branch, Descriptor, Int, PageDirectory, SECTION};
use rustboot::elf::{AuxvType, Ehdr};
use rustboot::kernel::Kernel;
use rustboot::mem::Memory;
use rustboot::screen::{ColorDepth, Pixel, Resolution};
use rustboot::vga::{cursor_at, Char, Color};

#[test]
fn color_depth_from_uint_maps_the_known_widths() {
    assert_eq!(ColorDepth::from_uint(1), ColorDepth::BW);
    assert_eq!(ColorDepth::from_uint(16), ColorDepth::HighColor);
    assert_eq!(ColorDepth::from_uint(24), ColorDepth::TrueColor);
    assert_eq!(ColorDepth::from_uint(32), ColorDepth::ARGB);
    assert_eq!(ColorDepth::from_uint(7), ColorDepth::NoColor);
}

#[test]
fn pixel_words_pack_their_channels() {
    assert_eq!(Pixel::BWPixel(true).word(), 0xFFFF_FFFF);
    assert_eq!(Pixel::BWPixel(false).word(), 0);
    // 5:6:5 packing.
    assert_eq!(Pixel::HighColorPixel(31, 63, 31).word(), 0xFFFF);
    assert_eq!(Pixel::HighColorPixel(1, 1, 1).word(), 0x0821);
    assert_eq!(Pixel::TrueColorPixel(0x12, 0x34, 0x56).word(), 0x12_3456);
    assert_eq!(Pixel::ARGBPixel(0xAA, 0x12, 0x34, 0x56).word(), 0xAA12_3456);
    assert_eq!(Pixel::NoColorPixel.word(), 0);
}

#[test]
fn pixel_new_starts_black() {
    assert_eq!(Pixel::new(ColorDepth::BW), Pixel::BWPixel(false));
    assert_eq!(Pixel::new(ColorDepth::ARGB), Pixel::ARGBPixel(0, 0, 0, 0));
    let r = Resolution { w: 640, h: 480 };
    assert_eq!(r.w * r.h, 307200);
}

#[test]
fn vga_char_packs_colors_into_the_attribute() {
    let c = Char::new(b'A', Color::White, Color::Blue);
    assert_eq!(c.char, b'A');
    assert_eq!(c.attr, 15 | (1 << 4));
}

#[test]
fn vga_cursor_register_writes() {
    assert_eq!(cursor_at(0), (0, 0));
    assert_eq!(cursor_at(80 * 24 + 5), (0x85, 0x07));
}

#[test]
fn arm_branch_encodes_the_displacement() {
    // A branch to the next instruction: offset -8 (prefetch) over 4.
    assert_eq!(branch(0), 0xEAFF_FFFE);
    assert_eq!(branch(8), 0xEA00_0000);
    assert_eq!(branch(12), 0xEA00_0001);
}

#[test]
fn arm_sections_identity_map() {
    let d = Descriptor::section(0x30_0000, 0x400);
    assert_eq!(d.0, 0x30_0000 | 0x400 | SECTION);
    assert_eq!(d.base(), 0x30_0000);
    let dir = PageDirectory::new_identity(0x400);
    assert_eq!(dir.get(0x1234_5678).base(), 0x1230_0000);
    assert_eq!(Int::SWI.vector(), 2);
    assert_eq!(Int::IRQ.vector(), 6);
}

#[test]
fn elf_magic_is_checked() {
    let mut ident = [0u8; 16];
    ident[0] = 0x7F;
    ident[1] = b'E';
    ident[2] = b'L';
    ident[3] = b'F';
    let good = Ehdr {
        e_ident: ident,
        e_type: 2,
        e_machine: 3,
        e_version: 1,
        e_entry: 0x40_0000,
        e_phoff: 64,
        e_shoff: 0,
        e_flags: 0,
        e_ehsize: 64,
        e_phentsize: 56,
        e_phnum: 1,
        e_shentsize: 0,
        e_shnum: 0,
        e_shstrndx: 0,
    };
    assert!(good.check_magic());
    let mut bad = good;
    bad.e_ident[1] = b'X';
    assert!(!bad.check_magic());
    assert_eq!(AuxvType::AT_ENTRY.value(), 9);
    assert_eq!(AuxvType::AT_NULL.value(), 0);
}

#[test]
fn kernel_boot_assembles_the_core() {
    let mut k = Kernel::init(0x10_0000, 0x10_4000).unwrap();
    assert!(k.interrupts.is_loaded());
    let dir = k.process.paging.as_ptr();
    // Paging is live over the identity-mapped low region.
    let e = k.mmu.translate(dir, 0x9000).unwrap();
    assert_eq!(e.0, 0x9003);
    // The kernel hands out frames, zero-filled on request.
    let f = k.alloc_frames(1).unwrap();
    assert_eq!(f.as_ptr() % 0x1000, 0);
    let mut phys_mem = Memory::new(0x20_0000, 8192 * 0x1000);
    let g = k.zero_alloc_frames(&mut phys_mem, 2).unwrap();
    assert_ne!(f.as_ptr(), g.as_ptr());
    assert_eq!(phys_mem.read(g.as_ptr()), 0);
    assert_eq!(phys_mem.read(g.as_ptr() + 2 * 0x1000 - 1), 0);
}
