//! Architecture tag of a binary image.

use vstd::prelude::*;

verus! {

/// Instruction-set architecture of an executable region. The tag selects the
/// decoder mode; a search over `Unknown` is rejected as a configuration
/// error before any decoding starts.
#[derive(Clone, Copy, PartialEq, Eq, Structural, Debug)]
pub enum Architecture {
    X86,
    X64,
    Unknown,
}

} // verus!
