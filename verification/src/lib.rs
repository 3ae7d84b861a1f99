//! Semantic comparison of two builds of a binary: the verified core.
pub mod bytes;
pub mod ranges;
pub mod normalize;
pub mod symbol;
pub mod error;
pub mod binary;
pub mod dwarf;
pub mod diff;
pub mod disasm;
pub mod text;
pub mod report;
pub mod listing;
