//! Variable-length instruction decoding at arbitrary byte offsets.
//!
//! The decoder is a pure function of the architecture, the byte sequence and
//! the offset: [`spec_decode`] is the grammar, and [`decode_kind`] is the
//! executable decoder proved to agree with it. It recognizes a conservative
//! subset of the x86/x64 encodings — every control-transfer form a gadget can
//! end in, plus the common single-byte and immediate forms around them. Any
//! byte sequence outside the subset decodes to `Invalid` with length 1, so a
//! search can always advance one byte and retry; an unrecognized encoding
//! prunes a candidate, it never aborts a run (a documented limitation of the
//! recognized set, not an error).

use vstd::prelude::*;

use crate::arch::Architecture;
use crate::insn::{Instruction, InstrKind};

verus! {

/// Little-endian 16-bit value at `off`.
pub open spec fn le16(b: Seq<u8>, off: int) -> u16 {
    (b[off] + b[off + 1] * 0x100) as u16
}

/// Little-endian 32-bit value at `off`.
pub open spec fn le32(b: Seq<u8>, off: int) -> u32 {
    (b[off] + b[off + 1] * 0x100 + b[off + 2] * 0x10000 + b[off + 3] * 0x1000000) as u32
}

/// Reads a little-endian 16-bit value.
fn read_le16(b: &Vec<u8>, off: usize) -> (r: u16)
    requires
        off + 2 <= b.len(),
    ensures
        r == le16(b@, off as int),
{
    b[off] as u16 + b[off + 1] as u16 * 0x100
}

/// Reads a little-endian 32-bit value.
fn read_le32(b: &Vec<u8>, off: usize) -> (r: u32)
    requires
        off + 4 <= b.len(),
    ensures
        r == le32(b@, off as int),
{
    b[off] as u32 + b[off + 1] as u32 * 0x100 + b[off + 2] as u32 * 0x10000
        + b[off + 3] as u32 * 0x1000000
}

/// Decodes the encodings shared by the 32-bit and 64-bit modes; everything
/// else (including the 0x40..=0x4F block, whose meaning differs by mode) is
/// `Invalid` here.
pub open spec fn spec_decode_common(b: Seq<u8>, off: int) -> (InstrKind, int) {
    let op = b[off];
    let avail = b.len() - off;
    if op == 0xC3 {
        (InstrKind::Ret, 1)
    } else if op == 0xC2 {
        if avail >= 3 {
            (InstrKind::RetImm(le16(b, off + 1)), 3)
        } else {
            (InstrKind::Invalid, 1)
        }
    } else if 0x58 <= op && op <= 0x5F {
        (InstrKind::PopReg((op - 0x58) as u8), 1)
    } else if 0x50 <= op && op <= 0x57 {
        (InstrKind::PushReg((op - 0x50) as u8), 1)
    } else if op == 0x90 {
        (InstrKind::Nop, 1)
    } else if op == 0xC9 {
        (InstrKind::Leave, 1)
    } else if 0xB8 <= op && op <= 0xBF {
        if avail >= 5 {
            (InstrKind::MovRegImm((op - 0xB8) as u8, le32(b, off + 1)), 5)
        } else {
            (InstrKind::Invalid, 1)
        }
    } else if op == 0xE8 {
        if avail >= 5 {
            (InstrKind::CallRel(le32(b, off + 1)), 5)
        } else {
            (InstrKind::Invalid, 1)
        }
    } else if op == 0xE9 {
        if avail >= 5 {
            (InstrKind::JmpRel(le32(b, off + 1)), 5)
        } else {
            (InstrKind::Invalid, 1)
        }
    } else if op == 0xEB {
        if avail >= 2 {
            (InstrKind::JmpRelShort(b[off + 1]), 2)
        } else {
            (InstrKind::Invalid, 1)
        }
    } else if 0x70 <= op && op <= 0x7F {
        if avail >= 2 {
            (InstrKind::JccShort((op - 0x70) as u8, b[off + 1]), 2)
        } else {
            (InstrKind::Invalid, 1)
        }
    } else if op == 0x0F {
        if avail >= 6 && 0x80 <= b[off + 1] && b[off + 1] <= 0x8F {
            (InstrKind::Jcc((b[off + 1] - 0x80) as u8, le32(b, off + 2)), 6)
        } else {
            (InstrKind::Invalid, 1)
        }
    } else if op == 0xFF {
        if avail >= 2 {
            let modrm = b[off + 1];
            let md = modrm / 64;
            let reg = (modrm / 8) % 8;
            let rm = modrm % 8;
            if reg == 2 {
                if md == 3 {
                    (InstrKind::CallReg(rm as u8), 2)
                } else if md == 0 && rm != 4 && rm != 5 {
                    (InstrKind::CallMem(rm as u8), 2)
                } else {
                    (InstrKind::Invalid, 1)
                }
            } else if reg == 4 {
                if md == 3 {
                    (InstrKind::JmpReg(rm as u8), 2)
                } else if md == 0 && rm != 4 && rm != 5 {
                    (InstrKind::JmpMem(rm as u8), 2)
                } else {
                    (InstrKind::Invalid, 1)
                }
            } else {
                (InstrKind::Invalid, 1)
            }
        } else {
            (InstrKind::Invalid, 1)
        }
    } else {
        (InstrKind::Invalid, 1)
    }
}

/// 64-bit mode: a 0x40..=0x4F byte is a REX prefix; the recognized
/// REX-prefixed forms are `pop`/`push` of an extended register,
/// `mov r64, imm32` (REX.W + 0xC7 /0) and `lea r64, [rip+disp32]`
/// (REX.W + 0x8D).
pub open spec fn spec_decode_x64(b: Seq<u8>, off: int) -> (InstrKind, int) {
    let op = b[off];
    let avail = b.len() - off;
    if 0x40 <= op && op <= 0x4F {
        if avail >= 2 {
            let rex_b = op % 2;
            let rex_r = (op / 4) % 2;
            let rex_w = (op / 8) % 2;
            let op2 = b[off + 1];
            if 0x58 <= op2 && op2 <= 0x5F {
                (InstrKind::PopReg((op2 - 0x58 + rex_b * 8) as u8), 2)
            } else if 0x50 <= op2 && op2 <= 0x57 {
                (InstrKind::PushReg((op2 - 0x50 + rex_b * 8) as u8), 2)
            } else if op2 == 0xC7 && rex_w == 1 && avail >= 7 && 0xC0 <= b[off + 2] && b[off + 2]
                <= 0xC7 {
                (InstrKind::MovRegImmWide((b[off + 2] - 0xC0 + rex_b * 8) as u8, le32(b, off + 3)), 7)
            } else if op2 == 0x8D && rex_w == 1 && avail >= 7 && b[off + 2] / 64 == 0 && b[off + 2]
                % 8 == 5 {
                (InstrKind::LeaRipRel(((b[off + 2] / 8) % 8 + rex_r * 8) as u8, le32(b, off + 3)), 7)
            } else {
                (InstrKind::Invalid, 1)
            }
        } else {
            (InstrKind::Invalid, 1)
        }
    } else {
        spec_decode_common(b, off)
    }
}

/// 32-bit mode: the 0x40..=0x4F block is the single-byte `inc`/`dec` forms.
pub open spec fn spec_decode_x86(b: Seq<u8>, off: int) -> (InstrKind, int) {
    let op = b[off];
    if 0x40 <= op && op <= 0x47 {
        (InstrKind::IncReg((op - 0x40) as u8), 1)
    } else if 0x48 <= op && op <= 0x4F {
        (InstrKind::DecReg((op - 0x48) as u8), 1)
    } else {
        spec_decode_common(b, off)
    }
}

/// What decoding at offset `off` of `b` yields: the normalized instruction
/// and its encoded length. A pure function of its arguments — the grammar of
/// the recognized encoding set.
pub open spec fn spec_decode(arch: Architecture, b: Seq<u8>, off: int) -> (InstrKind, int) {
    match arch {
        Architecture::X64 => spec_decode_x64(b, off),
        Architecture::X86 => spec_decode_x86(b, off),
        Architecture::Unknown => (InstrKind::Invalid, 1),
    }
}

/// Basic facts about any decode result: the length is 1..=15, a recognized
/// instruction lies entirely within the byte sequence, and an unrecognized
/// one has length 1 so a scan can advance a byte and retry.
pub proof fn lemma_decode_props(arch: Architecture, b: Seq<u8>, off: int)
    requires
        0 <= off < b.len(),
    ensures
        1 <= spec_decode(arch, b, off).1 <= 15,
        spec_decode(arch, b, off).0 != InstrKind::Invalid ==> off + spec_decode(arch, b, off).1
            <= b.len(),
        spec_decode(arch, b, off).0 == InstrKind::Invalid ==> spec_decode(arch, b, off).1 == 1,
{
}

/// Executable decoder; agrees with [`spec_decode`].
pub fn decode_kind(arch: &Architecture, b: &Vec<u8>, off: usize) -> (r: (InstrKind, usize))
    requires
        off < b.len(),
    ensures
        (r.0, r.1 as int) == spec_decode(*arch, b@, off as int),
{
    match arch {
        Architecture::X64 => decode_kind_x64(b, off),
        Architecture::X86 => decode_kind_x86(b, off),
        Architecture::Unknown => (InstrKind::Invalid, 1),
    }
}

fn decode_kind_common(b: &Vec<u8>, off: usize) -> (r: (InstrKind, usize))
    requires
        off < b.len(),
    ensures
        (r.0, r.1 as int) == spec_decode_common(b@, off as int),
{
    let op = b[off];
    let avail = b.len() - off;
    if op == 0xC3 {
        (InstrKind::Ret, 1)
    } else if op == 0xC2 {
        if avail >= 3 {
            (InstrKind::RetImm(read_le16(b, off + 1)), 3)
        } else {
            (InstrKind::Invalid, 1)
        }
    } else if 0x58 <= op && op <= 0x5F {
        (InstrKind::PopReg(op - 0x58), 1)
    } else if 0x50 <= op && op <= 0x57 {
        (InstrKind::PushReg(op - 0x50), 1)
    } else if op == 0x90 {
        (InstrKind::Nop, 1)
    } else if op == 0xC9 {
        (InstrKind::Leave, 1)
    } else if 0xB8 <= op && op <= 0xBF {
        if avail >= 5 {
            (InstrKind::MovRegImm(op - 0xB8, read_le32(b, off + 1)), 5)
        } else {
            (InstrKind::Invalid, 1)
        }
    } else if op == 0xE8 {
        if avail >= 5 {
            (InstrKind::CallRel(read_le32(b, off + 1)), 5)
        } else {
            (InstrKind::Invalid, 1)
        }
    } else if op == 0xE9 {
        if avail >= 5 {
            (InstrKind::JmpRel(read_le32(b, off + 1)), 5)
        } else {
            (InstrKind::Invalid, 1)
        }
    } else if op == 0xEB {
        if avail >= 2 {
            (InstrKind::JmpRelShort(b[off + 1]), 2)
        } else {
            (InstrKind::Invalid, 1)
        }
    } else if 0x70 <= op && op <= 0x7F {
        if avail >= 2 {
            (InstrKind::JccShort(op - 0x70, b[off + 1]), 2)
        } else {
            (InstrKind::Invalid, 1)
        }
    } else if op == 0x0F {
        if avail >= 6 && 0x80 <= b[off + 1] && b[off + 1] <= 0x8F {
            (InstrKind::Jcc(b[off + 1] - 0x80, read_le32(b, off + 2)), 6)
        } else {
            (InstrKind::Invalid, 1)
        }
    } else if op == 0xFF {
        if avail >= 2 {
            let modrm = b[off + 1];
            let md = modrm / 64;
            let reg = (modrm / 8) % 8;
            let rm = modrm % 8;
            if reg == 2 {
                if md == 3 {
                    (InstrKind::CallReg(rm), 2)
                } else if md == 0 && rm != 4 && rm != 5 {
                    (InstrKind::CallMem(rm), 2)
                } else {
                    (InstrKind::Invalid, 1)
                }
            } else if reg == 4 {
                if md == 3 {
                    (InstrKind::JmpReg(rm), 2)
                } else if md == 0 && rm != 4 && rm != 5 {
                    (InstrKind::JmpMem(rm), 2)
                } else {
                    (InstrKind::Invalid, 1)
                }
            } else {
                (InstrKind::Invalid, 1)
            }
        } else {
            (InstrKind::Invalid, 1)
        }
    } else {
        (InstrKind::Invalid, 1)
    }
}

fn decode_kind_x64(b: &Vec<u8>, off: usize) -> (r: (InstrKind, usize))
    requires
        off < b.len(),
    ensures
        (r.0, r.1 as int) == spec_decode_x64(b@, off as int),
{
    let op = b[off];
    let avail = b.len() - off;
    if 0x40 <= op && op <= 0x4F {
        if avail >= 2 {
            let rex_b = op % 2;
            let rex_r = (op / 4) % 2;
            let rex_w = (op / 8) % 2;
            let op2 = b[off + 1];
            if 0x58 <= op2 && op2 <= 0x5F {
                (InstrKind::PopReg(op2 - 0x58 + rex_b * 8), 2)
            } else if 0x50 <= op2 && op2 <= 0x57 {
                (InstrKind::PushReg(op2 - 0x50 + rex_b * 8), 2)
            } else if op2 == 0xC7 && rex_w == 1 && avail >= 7 && 0xC0 <= b[off + 2] && b[off + 2]
                <= 0xC7 {
                (InstrKind::MovRegImmWide(b[off + 2] - 0xC0 + rex_b * 8, read_le32(b, off + 3)), 7)
            } else if op2 == 0x8D && rex_w == 1 && avail >= 7 && b[off + 2] / 64 == 0 && b[off + 2]
                % 8 == 5 {
                (InstrKind::LeaRipRel((b[off + 2] / 8) % 8 + rex_r * 8, read_le32(b, off + 3)), 7)
            } else {
                (InstrKind::Invalid, 1)
            }
        } else {
            (InstrKind::Invalid, 1)
        }
    } else {
        decode_kind_common(b, off)
    }
}

fn decode_kind_x86(b: &Vec<u8>, off: usize) -> (r: (InstrKind, usize))
    requires
        off < b.len(),
    ensures
        (r.0, r.1 as int) == spec_decode_x86(b@, off as int),
{
    let op = b[off];
    if 0x40 <= op && op <= 0x47 {
        (InstrKind::IncReg(op - 0x40), 1)
    } else if 0x48 <= op && op <= 0x4F {
        (InstrKind::DecReg(op - 0x48), 1)
    } else {
        decode_kind_common(b, off)
    }
}

/// Copies `b[off .. off + n]` into an owned vector.
pub fn copy_range(b: &Vec<u8>, off: usize, n: usize) -> (r: Vec<u8>)
    requires
        off + n <= b.len(),
    ensures
        r@ == b@.subrange(off as int, off + n),
{
    let mut r: Vec<u8> = Vec::new();
    let mut i: usize = 0;
    while i < n
        invariant
            i <= n,
            off + n <= b.len(),
            r@ == b@.subrange(off as int, off + i),
        decreases n - i,
    {
        r.push(b[off + i]);
        proof {
            assert(r@ =~= b@.subrange(off as int, off + i + 1));
        }
        i = i + 1;
    }
    r
}

/// Decodes one instruction occurrence at `base + off`: the normalized
/// record with an owned copy of its raw bytes. An unrecognized encoding
/// yields an `Invalid` record of length 1 rather than an error, so that a
/// caller can advance one byte and retry.
pub fn classify(arch: &Architecture, b: &Vec<u8>, off: usize, base: u64) -> (r: Instruction)
    requires
        off < b.len(),
        base + b.len() <= u64::MAX,
    ensures
        r.kind == spec_decode(*arch, b@, off as int).0,
        r.bytes@.len() == spec_decode(*arch, b@, off as int).1,
        r.bytes@ == b@.subrange(off as int, off + spec_decode(*arch, b@, off as int).1),
        r.address == base + off,
        r.kind != InstrKind::Invalid ==> r.wf(),
{
    proof {
        lemma_decode_props(*arch, b@, off as int);
    }
    let (kind, len) = decode_kind(arch, b, off);
    let raw = copy_range(b, off, len);
    Instruction { address: base + off as u64, kind, bytes: raw }
}

} // verus!
