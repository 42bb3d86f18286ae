//! Executable regions, search configuration and configuration errors.

use vstd::prelude::*;

use crate::insn::{category_of, InstrCategory, InstrKind};

verus! {

/// One executable memory region of a binary image: a nonempty byte range
/// mapped at `base_address`. Every offset into `bytes` is a candidate
/// decode site.
#[derive(Debug)]
pub struct ExecutableRegion {
    /// Virtual address of `bytes[0]`.
    pub base_address: u64,
    /// The region's bytes.
    pub bytes: Vec<u8>,
}

impl ExecutableRegion {
    /// A region is usable when it is nonempty and its address range does
    /// not wrap: every address in `[base_address, base_address + len)` is a
    /// representable decode site.
    pub open spec fn wf(self) -> bool {
        &&& self.bytes.len() > 0
        &&& self.base_address + self.bytes.len() <= u64::MAX
    }

    /// Executable well-formedness test; agrees with [`ExecutableRegion::wf`].
    pub fn check_wf(&self) -> (r: bool)
        ensures
            r == self.wf(),
    {
        self.bytes.len() > 0 && self.bytes.len() as u64 <= u64::MAX - self.base_address
    }
}

/// Search configuration: the backward window searched before each anchor,
/// the internal-branch policy, and which control-transfer categories end a
/// gadget.
#[derive(Clone, Copy, PartialEq, Eq, Structural, Debug)]
pub struct SearchConfig {
    /// Longest gadget considered, in bytes before its terminator. Purely a
    /// performance bound on the backward search window: a longer gadget is
    /// silently omitted, never mis-reported.
    pub max_gadget_bytes: usize,
    /// When false (the default), a gadget must run straight-line to its one
    /// ending control transfer; a candidate with an earlier terminator in it
    /// is discarded.
    pub allow_internal_branches: bool,
    /// `ret` forms end a gadget.
    pub term_return: bool,
    /// Indirect calls end a gadget.
    pub term_indirect_call: bool,
    /// Indirect jumps end a gadget.
    pub term_indirect_jump: bool,
    /// Direct calls end a gadget (extended mode).
    pub term_direct_call: bool,
    /// Direct jumps end a gadget (extended mode).
    pub term_direct_jump: bool,
}

impl SearchConfig {
    /// The window must be positive, and small enough that any gadget's
    /// total encoded length (window plus one terminator of at most 15
    /// bytes) fits the data model's 32-bit byte-length field.
    pub open spec fn wf(self) -> bool {
        0 < self.max_gadget_bytes <= 0xFFFF_FFF0
    }

    /// Executable well-formedness test; agrees with [`SearchConfig::wf`].
    pub fn check_wf(&self) -> (r: bool)
        ensures
            r == self.wf(),
    {
        0 < self.max_gadget_bytes && self.max_gadget_bytes <= 0xFFFF_FFF0
    }
}

impl Default for SearchConfig {
    /// The default search: a 32-byte window, straight-line gadgets only,
    /// ending in a return, an indirect call or an indirect jump.
    fn default() -> (r: SearchConfig)
        ensures
            r.max_gadget_bytes == 32,
            !r.allow_internal_branches,
            r.term_return,
            r.term_indirect_call,
            r.term_indirect_jump,
            !r.term_direct_call,
            !r.term_direct_jump,
            r.wf(),
    {
        SearchConfig {
            max_gadget_bytes: 32,
            allow_internal_branches: false,
            term_return: true,
            term_indirect_call: true,
            term_indirect_jump: true,
            term_direct_call: false,
            term_direct_jump: false,
        }
    }
}

/// Whether instructions of this normalized identity end a gadget under the
/// given configuration. A conditional branch never does.
pub open spec fn is_terminator_kind(cfg: SearchConfig, k: InstrKind) -> bool {
    match category_of(k) {
        InstrCategory::Return => cfg.term_return,
        InstrCategory::IndirectCall => cfg.term_indirect_call,
        InstrCategory::IndirectJump => cfg.term_indirect_jump,
        InstrCategory::DirectCall => cfg.term_direct_call,
        InstrCategory::DirectJump => cfg.term_direct_jump,
        _ => false,
    }
}

/// Executable terminator test; agrees with [`is_terminator_kind`].
pub fn is_terminator(cfg: &SearchConfig, k: &InstrKind) -> (r: bool)
    ensures
        r == is_terminator_kind(*cfg, *k),
{
    match crate::insn::category(k) {
        InstrCategory::Return => cfg.term_return,
        InstrCategory::IndirectCall => cfg.term_indirect_call,
        InstrCategory::IndirectJump => cfg.term_indirect_jump,
        InstrCategory::DirectCall => cfg.term_direct_call,
        InstrCategory::DirectJump => cfg.term_direct_jump,
        _ => false,
    }
}

/// A configuration problem reported to the caller before a run starts.
/// Decode failures and window-exceeded candidates are never errors: they
/// prune the one candidate and the run goes on.
#[derive(Clone, Copy, PartialEq, Eq, Structural, Debug)]
pub enum EngineError {
    /// The architecture tag is `Unknown`, and decoding needs one.
    UnknownArchitecture,
    /// An executable region holds no bytes.
    EmptyRegion,
    /// A region's address range wraps around the top of the address space.
    RegionAddressOverflow,
    /// The search window is zero or too large for the data model.
    BadSearchWindow,
    /// A cross-reference query was given no binaries at all.
    NoBinaries,
}

} // verus!
