//! Gadget search and cross-referencing engine.
//!
//! The library locates "gadgets" — short instruction sequences that end in a
//! control-flow transfer — inside executable memory regions, deduplicates
//! them under a canonical key, cross-references them across several binary
//! images, and filters the results.

pub mod arch;
pub mod insn;
pub mod decode;
pub mod gadget;
pub mod region;
pub mod builder;
pub mod search;
pub mod filter;
pub mod xref;
pub mod reloc;
