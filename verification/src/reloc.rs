//! Relocation-table helpers for the import-dumping front end: the
//! standard ELF relocation type names and the conventional address of a
//! procedure-linkage-table stub.
//!
//! The numeric constants are the values the ELF ABI supplements assign to
//! the x86-64 and i386 relocation types.

use vstd::prelude::*;

verus! {

/// The ELF ABI name of an x86-64 relocation type, or `None` for a value
/// outside the named range (callers print the raw number then).
pub open spec fn spec_reloc_name_x64(t: u32) -> Option<&'static str> {
    if t == 0 {
        Some("R_X86_64_NONE")
    } else if t == 1 {
        Some("R_X86_64_64")
    } else if t == 2 {
        Some("R_X86_64_PC32")
    } else if t == 3 {
        Some("R_X86_64_GOT32")
    } else if t == 4 {
        Some("R_X86_64_PLT32")
    } else if t == 5 {
        Some("R_X86_64_COPY")
    } else if t == 6 {
        Some("R_X86_64_GLOB_DAT")
    } else if t == 7 {
        Some("R_X86_64_JUMP_SLOT")
    } else if t == 8 {
        Some("R_X86_64_RELATIVE")
    } else if t == 9 {
        Some("R_X86_64_GOTPCREL")
    } else if t == 10 {
        Some("R_X86_64_32")
    } else if t == 11 {
        Some("R_X86_64_32S")
    } else if t == 12 {
        Some("R_X86_64_16")
    } else if t == 13 {
        Some("R_X86_64_PC16")
    } else if t == 14 {
        Some("R_X86_64_8")
    } else if t == 15 {
        Some("R_X86_64_PC8")
    } else if t == 16 {
        Some("R_X86_64_DTPMOD64")
    } else if t == 17 {
        Some("R_X86_64_DTPOFF64")
    } else if t == 18 {
        Some("R_X86_64_TPOFF64")
    } else if t == 19 {
        Some("R_X86_64_TLSGD")
    } else if t == 20 {
        Some("R_X86_64_TLSLD")
    } else if t == 21 {
        Some("R_X86_64_DTPOFF32")
    } else if t == 22 {
        Some("R_X86_64_GOTTPOFF")
    } else if t == 23 {
        Some("R_X86_64_TPOFF32")
    } else if t == 24 {
        Some("R_X86_64_PC64")
    } else if t == 25 {
        Some("R_X86_64_GOTOFF64")
    } else if t == 26 {
        Some("R_X86_64_GOTPC32")
    } else if t == 32 {
        Some("R_X86_64_SIZE32")
    } else if t == 33 {
        Some("R_X86_64_SIZE64")
    } else if t == 34 {
        Some("R_X86_64_GOTPC32_TLSDESC")
    } else if t == 35 {
        Some("R_X86_64_TLSDESC_CALL")
    } else if t == 36 {
        Some("R_X86_64_TLSDESC")
    } else if t == 37 {
        Some("R_X86_64_IRELATIVE")
    } else {
        None
    }
}

/// The ELF ABI name of an x86-64 relocation type; agrees with
/// [`spec_reloc_name_x64`].
pub fn reloc_name_x64(t: u32) -> (r: Option<&'static str>)
    ensures
        r == spec_reloc_name_x64(t),
{
    if t == 0 {
        Some("R_X86_64_NONE")
    } else if t == 1 {
        Some("R_X86_64_64")
    } else if t == 2 {
        Some("R_X86_64_PC32")
    } else if t == 3 {
        Some("R_X86_64_GOT32")
    } else if t == 4 {
        Some("R_X86_64_PLT32")
    } else if t == 5 {
        Some("R_X86_64_COPY")
    } else if t == 6 {
        Some("R_X86_64_GLOB_DAT")
    } else if t == 7 {
        Some("R_X86_64_JUMP_SLOT")
    } else if t == 8 {
        Some("R_X86_64_RELATIVE")
    } else if t == 9 {
        Some("R_X86_64_GOTPCREL")
    } else if t == 10 {
        Some("R_X86_64_32")
    } else if t == 11 {
        Some("R_X86_64_32S")
    } else if t == 12 {
        Some("R_X86_64_16")
    } else if t == 13 {
        Some("R_X86_64_PC16")
    } else if t == 14 {
        Some("R_X86_64_8")
    } else if t == 15 {
        Some("R_X86_64_PC8")
    } else if t == 16 {
        Some("R_X86_64_DTPMOD64")
    } else if t == 17 {
        Some("R_X86_64_DTPOFF64")
    } else if t == 18 {
        Some("R_X86_64_TPOFF64")
    } else if t == 19 {
        Some("R_X86_64_TLSGD")
    } else if t == 20 {
        Some("R_X86_64_TLSLD")
    } else if t == 21 {
        Some("R_X86_64_DTPOFF32")
    } else if t == 22 {
        Some("R_X86_64_GOTTPOFF")
    } else if t == 23 {
        Some("R_X86_64_TPOFF32")
    } else if t == 24 {
        Some("R_X86_64_PC64")
    } else if t == 25 {
        Some("R_X86_64_GOTOFF64")
    } else if t == 26 {
        Some("R_X86_64_GOTPC32")
    } else if t == 32 {
        Some("R_X86_64_SIZE32")
    } else if t == 33 {
        Some("R_X86_64_SIZE64")
    } else if t == 34 {
        Some("R_X86_64_GOTPC32_TLSDESC")
    } else if t == 35 {
        Some("R_X86_64_TLSDESC_CALL")
    } else if t == 36 {
        Some("R_X86_64_TLSDESC")
    } else if t == 37 {
        Some("R_X86_64_IRELATIVE")
    } else {
        None
    }
}

/// The ELF ABI name of an i386 relocation type, or `None` for a value
/// outside the named range.
pub open spec fn spec_reloc_name_x86(t: u32) -> Option<&'static str> {
    if t == 0 {
        Some("R_386_NONE")
    } else if t == 1 {
        Some("R_386_32")
    } else if t == 2 {
        Some("R_386_PC32")
    } else if t == 3 {
        Some("R_386_GOT32")
    } else if t == 4 {
        Some("R_386_PLT32")
    } else if t == 5 {
        Some("R_386_COPY")
    } else if t == 6 {
        Some("R_386_GLOB_DAT")
    } else if t == 7 {
        Some("R_386_JMP_SLOT")
    } else if t == 8 {
        Some("R_386_RELATIVE")
    } else if t == 9 {
        Some("R_386_GOTOFF")
    } else if t == 10 {
        Some("R_386_GOTPC")
    } else if t == 11 {
        Some("R_386_32PLT")
    } else if t == 14 {
        Some("R_386_TLS_TPOFF")
    } else if t == 15 {
        Some("R_386_TLS_IE")
    } else if t == 16 {
        Some("R_386_TLS_GOTIE")
    } else if t == 17 {
        Some("R_386_TLS_LE")
    } else if t == 18 {
        Some("R_386_TLS_GD")
    } else if t == 19 {
        Some("R_386_TLS_LDM")
    } else if t == 20 {
        Some("R_386_16")
    } else if t == 21 {
        Some("R_386_PC16")
    } else if t == 22 {
        Some("R_386_8")
    } else if t == 23 {
        Some("R_386_PC8")
    } else if t == 24 {
        Some("R_386_TLS_GD_32")
    } else if t == 25 {
        Some("R_386_TLS_GD_PUSH")
    } else if t == 26 {
        Some("R_386_TLS_GD_CALL")
    } else if t == 27 {
        Some("R_386_TLS_GD_POP")
    } else if t == 28 {
        Some("R_386_TLS_LDM_32")
    } else if t == 29 {
        Some("R_386_TLS_LDM_PUSH")
    } else if t == 30 {
        Some("R_386_TLS_LDM_CALL")
    } else if t == 31 {
        Some("R_386_TLS_LDM_POP")
    } else if t == 32 {
        Some("R_386_TLS_LDO_32")
    } else if t == 33 {
        Some("R_386_TLS_IE_32")
    } else if t == 34 {
        Some("R_386_TLS_LE_32")
    } else if t == 35 {
        Some("R_386_TLS_DTPMOD32")
    } else if t == 36 {
        Some("R_386_TLS_DTPOFF32")
    } else if t == 37 {
        Some("R_386_TLS_TPOFF32")
    } else if t == 38 {
        Some("R_386_SIZE32")
    } else if t == 39 {
        Some("R_386_TLS_GOTDESC")
    } else if t == 40 {
        Some("R_386_TLS_DESC_CALL")
    } else if t == 41 {
        Some("R_386_TLS_DESC")
    } else if t == 42 {
        Some("R_386_IRELATIVE")
    } else if t == 43 {
        Some("R_386_GOT32X")
    } else if t == 44 {
        Some("R_386_NUM")
    } else {
        None
    }
}

/// The ELF ABI name of an i386 relocation type; agrees with
/// [`spec_reloc_name_x86`].
pub fn reloc_name_x86(t: u32) -> (r: Option<&'static str>)
    ensures
        r == spec_reloc_name_x86(t),
{
    if t == 0 {
        Some("R_386_NONE")
    } else if t == 1 {
        Some("R_386_32")
    } else if t == 2 {
        Some("R_386_PC32")
    } else if t == 3 {
        Some("R_386_GOT32")
    } else if t == 4 {
        Some("R_386_PLT32")
    } else if t == 5 {
        Some("R_386_COPY")
    } else if t == 6 {
        Some("R_386_GLOB_DAT")
    } else if t == 7 {
        Some("R_386_JMP_SLOT")
    } else if t == 8 {
        Some("R_386_RELATIVE")
    } else if t == 9 {
        Some("R_386_GOTOFF")
    } else if t == 10 {
        Some("R_386_GOTPC")
    } else if t == 11 {
        Some("R_386_32PLT")
    } else if t == 14 {
        Some("R_386_TLS_TPOFF")
    } else if t == 15 {
        Some("R_386_TLS_IE")
    } else if t == 16 {
        Some("R_386_TLS_GOTIE")
    } else if t == 17 {
        Some("R_386_TLS_LE")
    } else if t == 18 {
        Some("R_386_TLS_GD")
    } else if t == 19 {
        Some("R_386_TLS_LDM")
    } else if t == 20 {
        Some("R_386_16")
    } else if t == 21 {
        Some("R_386_PC16")
    } else if t == 22 {
        Some("R_386_8")
    } else if t == 23 {
        Some("R_386_PC8")
    } else if t == 24 {
        Some("R_386_TLS_GD_32")
    } else if t == 25 {
        Some("R_386_TLS_GD_PUSH")
    } else if t == 26 {
        Some("R_386_TLS_GD_CALL")
    } else if t == 27 {
        Some("R_386_TLS_GD_POP")
    } else if t == 28 {
        Some("R_386_TLS_LDM_32")
    } else if t == 29 {
        Some("R_386_TLS_LDM_PUSH")
    } else if t == 30 {
        Some("R_386_TLS_LDM_CALL")
    } else if t == 31 {
        Some("R_386_TLS_LDM_POP")
    } else if t == 32 {
        Some("R_386_TLS_LDO_32")
    } else if t == 33 {
        Some("R_386_TLS_IE_32")
    } else if t == 34 {
        Some("R_386_TLS_LE_32")
    } else if t == 35 {
        Some("R_386_TLS_DTPMOD32")
    } else if t == 36 {
        Some("R_386_TLS_DTPOFF32")
    } else if t == 37 {
        Some("R_386_TLS_TPOFF32")
    } else if t == 38 {
        Some("R_386_SIZE32")
    } else if t == 39 {
        Some("R_386_TLS_GOTDESC")
    } else if t == 40 {
        Some("R_386_TLS_DESC_CALL")
    } else if t == 41 {
        Some("R_386_TLS_DESC")
    } else if t == 42 {
        Some("R_386_IRELATIVE")
    } else if t == 43 {
        Some("R_386_GOT32X")
    } else if t == 44 {
        Some("R_386_NUM")
    } else {
        None
    }
}

/// Conventional address of the procedure-linkage-table stub serving jump
/// slot number `reloc_idx`: stubs are 16 bytes each and the slot's stub
/// sits one stub past the table head. `None` when the address would wrap.
pub fn plt_stub_address(plt_base: u64, reloc_idx: u64) -> (r: Option<u64>)
    ensures
        match r {
            Some(a) => a == plt_base + (reloc_idx + 1) * 16,
            None => plt_base + (reloc_idx + 1) * 16 > u64::MAX,
        },
{
    if reloc_idx >= 0x0FFF_FFFF_FFFF_FFFF {
        proof {
            assert((reloc_idx + 1) * 16 > u64::MAX) by (nonlinear_arith)
                requires
                    reloc_idx >= 0x0FFF_FFFF_FFFF_FFFF,
            ;
        }
        return None;
    }
    let offset: u64 = (reloc_idx + 1) * 16;
    proof {
        assert((reloc_idx + 1) * 16 <= u64::MAX) by (nonlinear_arith)
            requires
                reloc_idx < 0x0FFF_FFFF_FFFF_FFFF,
        ;
    }
    if offset > u64::MAX - plt_base {
        return None;
    }
    Some(plt_base + offset)
}

} // verus!
