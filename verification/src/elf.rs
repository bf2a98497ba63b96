//! The ELF object format's data model, as the loader reads it from a
//! program image: file, program and section headers, symbols,
//! relocations, version records, and the auxiliary vector handed to a
//! new process.  The loader itself consumes the memory manager's mapping
//! interface and stays outside the verified core.

use vstd::prelude::*;

verus! {

/// The four magic bytes opening every ELF image.
pub const ELF_MAGIC_0: u8 = 0x7F;

/// The second magic byte.
pub const ELF_MAGIC_1: u8 = 0x45;

/// The third magic byte.
pub const ELF_MAGIC_2: u8 = 0x4C;

/// The fourth magic byte.
pub const ELF_MAGIC_3: u8 = 0x46;

/// The file header.
#[derive(Clone, Copy, Debug, PartialEq, Eq)]
pub struct Ehdr {
    pub e_ident: [u8; 16],
    pub e_type: u16,
    pub e_machine: u16,
    pub e_version: u32,
    pub e_entry: u64,
    pub e_phoff: u64,
    pub e_shoff: u64,
    pub e_flags: u32,
    pub e_ehsize: u16,
    pub e_phentsize: u16,
    pub e_phnum: u16,
    pub e_shentsize: u16,
    pub e_shnum: u16,
    pub e_shstrndx: u16,
}

impl Ehdr {
    /// Whether the identification bytes open with the ELF magic: the
    /// integrity check the loader makes before trusting any other field.
    pub fn check_magic(&self) -> (r: bool)
        ensures
            r == (self.e_ident@[0] == ELF_MAGIC_0 && self.e_ident@[1] == ELF_MAGIC_1
                && self.e_ident@[2] == ELF_MAGIC_2 && self.e_ident@[3] == ELF_MAGIC_3),
    {
        self.e_ident[0] == ELF_MAGIC_0 && self.e_ident[1] == ELF_MAGIC_1 && self.e_ident[2]
            == ELF_MAGIC_2 && self.e_ident[3] == ELF_MAGIC_3
    }
}

/// A program header: one loadable or informational segment.
#[derive(Clone, Copy, Debug, PartialEq, Eq, Structural)]
pub struct Phdr {
    pub p_type: u32,
    pub p_flags: u32,
    pub p_offset: u64,
    pub p_vaddr: u64,
    pub p_paddr: u64,
    pub p_filesz: u64,
    pub p_memsz: u64,
    pub p_align: u64,
}

/// A section header.
#[derive(Clone, Copy, Debug, PartialEq, Eq, Structural)]
pub struct Shdr {
    pub sh_name: u32,
    pub sh_type: u32,
    pub sh_flags: u64,
    pub sh_addr: u64,
    pub sh_offset: u64,
    pub sh_size: u64,
    pub sh_link: u32,
    pub sh_info: u32,
    pub sh_addralign: u64,
    pub sh_entsize: u64,
}

/// A symbol-table entry.
#[derive(Clone, Copy, Debug, PartialEq, Eq, Structural)]
pub struct Sym {
    pub st_name: u32,
    pub st_info: u8,
    pub st_other: u8,
    pub st_shndx: u16,
    pub st_value: u64,
    pub st_size: u64,
}

/// Extra symbol information.
#[derive(Clone, Copy, Debug, PartialEq, Eq, Structural)]
pub struct Syminfo {
    pub si_boundto: u16,
    pub si_flags: u16,
}

/// A relocation without an addend.
#[derive(Clone, Copy, Debug, PartialEq, Eq, Structural)]
pub struct Rel {
    pub r_offset: u64,
    pub r_info: u64,
}

/// A relocation with an addend.
#[derive(Clone, Copy, Debug, PartialEq, Eq, Structural)]
pub struct Rela {
    pub r_offset: u64,
    pub r_info: u64,
    pub r_addend: i64,
}

/// The value half of a dynamic-section entry: a value or an address,
/// depending on the tag.
#[derive(Clone, Copy, Debug, PartialEq, Eq, Structural)]
pub struct Union_Unnamed1 {
    pub data: u64,
}

/// The value half of a dynamic-section entry in the wide layout.
#[derive(Clone, Copy, Debug, PartialEq, Eq, Structural)]
pub struct Union_Unnamed2 {
    pub data: u64,
}

/// A dynamic-section entry.
#[derive(Clone, Copy, Debug, PartialEq, Eq, Structural)]
pub struct Dyn {
    pub d_tag: i64,
    pub d_un: Union_Unnamed1,
}

/// A version definition.
#[derive(Clone, Copy, Debug, PartialEq, Eq, Structural)]
pub struct Verdef {
    pub vd_version: u16,
    pub vd_flags: u16,
    pub vd_ndx: u16,
    pub vd_cnt: u16,
    pub vd_hash: u32,
    pub vd_aux: u32,
    pub vd_next: u32,
}

/// An auxiliary entry of a version definition.
#[derive(Clone, Copy, Debug, PartialEq, Eq, Structural)]
pub struct Verdaux {
    pub vda_name: u32,
    pub vda_next: u32,
}

/// A needed-version record.
#[derive(Clone, Copy, Debug, PartialEq, Eq, Structural)]
pub struct Verneed {
    pub vn_version: u16,
    pub vn_cnt: u16,
    pub vn_file: u32,
    pub vn_aux: u32,
    pub vn_next: u32,
}

/// An auxiliary entry of a needed-version record.
#[derive(Clone, Copy, Debug, PartialEq, Eq, Structural)]
pub struct Vernaux {
    pub vna_hash: u32,
    pub vna_flags: u16,
    pub vna_other: u16,
    pub vna_name: u32,
    pub vna_next: u32,
}

/// The value half of an auxiliary-vector entry.
#[derive(Clone, Copy, Debug, PartialEq, Eq, Structural)]
pub struct AuxvValue {
    pub data: u64,
}

/// One auxiliary-vector entry: a typed value handed to a fresh process.
#[derive(Clone, Copy, Debug, PartialEq, Eq, Structural)]
pub struct Auxv {
    pub a_type: AuxvType,
    pub a_un: AuxvValue,
}

/// The defined auxiliary-vector entry types.
#[derive(Clone, Copy, Debug, PartialEq, Eq, Structural)]
#[allow(non_camel_case_types)]
pub enum AuxvType {
    AT_NULL,
    AT_IGNORE,
    AT_EXECFD,
    AT_PHDR,
    AT_PHENT,
    AT_PHNUM,
    AT_PAGESZ,
    AT_BASE,
    AT_FLAGS,
    AT_ENTRY,
    AT_NOTELF,
    AT_UID,
    AT_EUID,
    AT_GID,
    AT_EGID,
    AT_PLATFORM,
    AT_HWCAP,
    AT_CLKTCK,
    AT_FPUCW,
    AT_DCACHEBSIZE,
    AT_ICACHEBSIZE,
    AT_UCACHEBSIZE,
    AT_IGNOREPPC,
    AT_SECURE,
    AT_BASE_PLATFORM,
    AT_RANDOM,
    AT_HWCAP2,
    AT_EXECFN,
    AT_SYSINFO,
    AT_SYSINFO_EHDR,
    AT_L1I_CACHESHAPE,
    AT_L1D_CACHESHAPE,
    AT_L2_CACHESHAPE,
    AT_L3_CACHESHAPE,
}

impl AuxvType {
    /// The entry type's wire value.
    pub fn value(&self) -> (r: u32)
        ensures
            *self == AuxvType::AT_NULL ==> r == 0,
            *self == AuxvType::AT_PHDR ==> r == 3,
            *self == AuxvType::AT_PAGESZ ==> r == 6,
            *self == AuxvType::AT_ENTRY ==> r == 9,
    {
        match *self {
            AuxvType::AT_NULL => 0,
            AuxvType::AT_IGNORE => 1,
            AuxvType::AT_EXECFD => 2,
            AuxvType::AT_PHDR => 3,
            AuxvType::AT_PHENT => 4,
            AuxvType::AT_PHNUM => 5,
            AuxvType::AT_PAGESZ => 6,
            AuxvType::AT_BASE => 7,
            AuxvType::AT_FLAGS => 8,
            AuxvType::AT_ENTRY => 9,
            AuxvType::AT_NOTELF => 10,
            AuxvType::AT_UID => 11,
            AuxvType::AT_EUID => 12,
            AuxvType::AT_GID => 13,
            AuxvType::AT_EGID => 14,
            AuxvType::AT_PLATFORM => 15,
            AuxvType::AT_HWCAP => 16,
            AuxvType::AT_CLKTCK => 17,
            AuxvType::AT_FPUCW => 18,
            AuxvType::AT_DCACHEBSIZE => 19,
            AuxvType::AT_ICACHEBSIZE => 20,
            AuxvType::AT_UCACHEBSIZE => 21,
            AuxvType::AT_IGNOREPPC => 22,
            AuxvType::AT_SECURE => 23,
            AuxvType::AT_BASE_PLATFORM => 24,
            AuxvType::AT_RANDOM => 25,
            AuxvType::AT_HWCAP2 => 26,
            AuxvType::AT_EXECFN => 31,
            AuxvType::AT_SYSINFO => 32,
            AuxvType::AT_SYSINFO_EHDR => 33,
            AuxvType::AT_L1I_CACHESHAPE => 34,
            AuxvType::AT_L1D_CACHESHAPE => 35,
            AuxvType::AT_L2_CACHESHAPE => 36,
            AuxvType::AT_L3_CACHESHAPE => 37,
        }
    }
}

/// An annotation (note) header.
#[derive(Clone, Copy, Debug, PartialEq, Eq, Structural)]
pub struct Nhdr {
    pub n_namesz: u32,
    pub n_descsz: u32,
    pub n_type: u32,
}

/// The header half of a global-pointer table.
#[derive(Clone, Copy, Debug, PartialEq, Eq, Structural)]
pub struct Struct_Unnamed5 {
    pub gt_current_g_value: u32,
    pub gt_unused: u32,
}

/// One entry of a global-pointer table.
#[derive(Clone, Copy, Debug, PartialEq, Eq, Structural)]
pub struct Struct_Unnamed6 {
    pub gt_g_value: u32,
    pub gt_bytes: u32,
}

/// A global-pointer table cell: header or entry.
#[derive(Clone, Copy, Debug, PartialEq, Eq, Structural)]
#[allow(non_camel_case_types)]
pub struct gptab {
    pub data: u64,
}

/// Register-usage information.
#[derive(Clone, Copy, Debug, PartialEq, Eq)]
pub struct RegInfo {
    pub ri_gprmask: u32,
    pub ri_cprmask: [u32; 4],
    pub ri_gp_value: i32,
}

/// An options-section record.
#[derive(Clone, Copy, Debug, PartialEq, Eq, Structural)]
pub struct Elf_Options {
    pub kind: u8,
    pub size: u8,
    pub section: u16,
    pub info: u32,
}

/// Hardware-specific option flags.
#[derive(Clone, Copy, Debug, PartialEq, Eq, Structural)]
pub struct Elf_Options_Hw {
    pub hwp_flags1: u32,
    pub hwp_flags2: u32,
}

/// A library-list entry.
#[derive(Clone, Copy, Debug, PartialEq, Eq, Structural)]
pub struct Lib {
    pub l_name: u32,
    pub l_time_stamp: u32,
    pub l_checksum: u32,
    pub l_version: u32,
    pub l_flags: u32,
}

} // verus!
