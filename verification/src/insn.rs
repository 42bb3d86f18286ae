//! Normalized instruction records and their control-flow classification.

use vstd::prelude::*;

verus! {

/// Control-flow category of a decoded instruction. `Return`, `IndirectCall`
/// and `IndirectJump` (and, in an extended search mode, `DirectCall` and
/// `DirectJump`) qualify as gadget terminators; `ConditionalBranch` never
/// does. `Invalid` stands for a byte sequence that is not a recognized
/// encoding.
#[derive(Clone, Copy, PartialEq, Eq, Structural, Debug)]
pub enum InstrCategory {
    Return,
    IndirectCall,
    IndirectJump,
    DirectCall,
    DirectJump,
    ConditionalBranch,
    Other,
    Invalid,
}

/// Normalized identity of one decoded instruction: mnemonic plus operands,
/// independent of the address it was found at and of equivalent alternative
/// encodings. Register operands are numbered as the hardware numbers them
/// (0 = ax, 1 = cx, ..., 8..=15 the extended registers); immediates and
/// displacements are kept as their little-endian encoded value.
#[derive(Clone, Copy, PartialEq, Eq, Structural, Debug)]
pub enum InstrKind {
    /// `ret`
    Ret,
    /// `ret imm16` (stack cleanup return)
    RetImm(u16),
    /// `pop r`
    PopReg(u8),
    /// `push r`
    PushReg(u8),
    /// `inc r` (single-byte form, 32-bit mode only)
    IncReg(u8),
    /// `dec r` (single-byte form, 32-bit mode only)
    DecReg(u8),
    /// `mov r32, imm32`
    MovRegImm(u8, u32),
    /// `mov r64, imm32` (sign-extended immediate form)
    MovRegImmWide(u8, u32),
    /// `lea r64, [rip+disp32]`
    LeaRipRel(u8, u32),
    /// `call r` (indirect through a register)
    CallReg(u8),
    /// `call [r]` (indirect through memory)
    CallMem(u8),
    /// `jmp r` (indirect through a register)
    JmpReg(u8),
    /// `jmp [r]` (indirect through memory)
    JmpMem(u8),
    /// `call rel32`
    CallRel(u32),
    /// `jmp rel32`
    JmpRel(u32),
    /// `jmp rel8`
    JmpRelShort(u8),
    /// conditional branch, `jcc rel32` (condition code, displacement)
    Jcc(u8, u32),
    /// conditional branch, `jcc rel8` (condition code, displacement)
    JccShort(u8, u8),
    /// `nop`
    Nop,
    /// `leave`
    Leave,
    /// not a recognized encoding
    Invalid,
}

/// Control-flow category of a normalized instruction.
pub open spec fn category_of(k: InstrKind) -> InstrCategory {
    match k {
        InstrKind::Ret => InstrCategory::Return,
        InstrKind::RetImm(_) => InstrCategory::Return,
        InstrKind::CallReg(_) => InstrCategory::IndirectCall,
        InstrKind::CallMem(_) => InstrCategory::IndirectCall,
        InstrKind::JmpReg(_) => InstrCategory::IndirectJump,
        InstrKind::JmpMem(_) => InstrCategory::IndirectJump,
        InstrKind::CallRel(_) => InstrCategory::DirectCall,
        InstrKind::JmpRel(_) => InstrCategory::DirectJump,
        InstrKind::JmpRelShort(_) => InstrCategory::DirectJump,
        InstrKind::Jcc(_, _) => InstrCategory::ConditionalBranch,
        InstrKind::JccShort(_, _) => InstrCategory::ConditionalBranch,
        InstrKind::Invalid => InstrCategory::Invalid,
        _ => InstrCategory::Other,
    }
}

/// Executable classification; agrees with [`category_of`].
pub fn category(k: &InstrKind) -> (c: InstrCategory)
    ensures
        c == category_of(*k),
{
    match k {
        InstrKind::Ret => InstrCategory::Return,
        InstrKind::RetImm(_) => InstrCategory::Return,
        InstrKind::CallReg(_) => InstrCategory::IndirectCall,
        InstrKind::CallMem(_) => InstrCategory::IndirectCall,
        InstrKind::JmpReg(_) => InstrCategory::IndirectJump,
        InstrKind::JmpMem(_) => InstrCategory::IndirectJump,
        InstrKind::CallRel(_) => InstrCategory::DirectCall,
        InstrKind::JmpRel(_) => InstrCategory::DirectJump,
        InstrKind::JmpRelShort(_) => InstrCategory::DirectJump,
        InstrKind::Jcc(_, _) => InstrCategory::ConditionalBranch,
        InstrKind::JccShort(_, _) => InstrCategory::ConditionalBranch,
        InstrKind::Invalid => InstrCategory::Invalid,
        _ => InstrCategory::Other,
    }
}

/// Whether an instruction moves the stack pointer by more than the implicit
/// push/pop/return adjustment; such an instruction can redirect the stack to
/// attacker-controlled memory (a stack pivot). In the recognized encoding
/// set these are `pop rsp`/`pop esp`, `mov (r/e)sp, imm`, `leave`, and the
/// single-byte `inc esp`/`dec esp` forms of 32-bit mode.
pub open spec fn is_stack_pivot(k: InstrKind) -> bool {
    match k {
        InstrKind::PopReg(r) => r == 4,
        InstrKind::MovRegImm(r, _) => r == 4,
        InstrKind::MovRegImmWide(r, _) => r == 4,
        InstrKind::IncReg(r) => r == 4,
        InstrKind::DecReg(r) => r == 4,
        InstrKind::Leave => true,
        _ => false,
    }
}

/// Executable stack-pivot test; agrees with [`is_stack_pivot`].
pub fn stack_pivot(k: &InstrKind) -> (r: bool)
    ensures
        r == is_stack_pivot(*k),
{
    match k {
        InstrKind::PopReg(r) => *r == 4,
        InstrKind::MovRegImm(r, _) => *r == 4,
        InstrKind::MovRegImmWide(r, _) => *r == 4,
        InstrKind::IncReg(r) => *r == 4,
        InstrKind::DecReg(r) => *r == 4,
        InstrKind::Leave => true,
        _ => false,
    }
}

/// One decoded instruction occurrence: where it was found, its normalized
/// identity, and an owned copy of its raw encoding.
#[derive(Debug)]
pub struct Instruction {
    /// Virtual address the instruction was decoded at.
    pub address: u64,
    /// Normalized mnemonic + operands.
    pub kind: InstrKind,
    /// Owned copy of the instruction's raw bytes; its length is the
    /// instruction's encoded length.
    pub bytes: Vec<u8>,
}

impl Instruction {
    /// Well-formedness: a recognized encoding of a plausible length
    /// (x86 instructions are 1 to 15 bytes long) that does not wrap
    /// around the top of the address space.
    pub open spec fn wf(self) -> bool {
        &&& self.kind != InstrKind::Invalid
        &&& 1 <= self.bytes.len() <= 15
        &&& self.address + self.bytes.len() <= u64::MAX
    }
}

} // verus!
