//! Shared data types: target bitness, the error taxonomy, and the request
//! records supplied by configuration.

use vstd::prelude::*;

verus! {

/// Pointer width of the target process. Every address computation in the
/// resolver and the table walker is parameterized by it.
#[derive(Clone, Copy, PartialEq, Eq, Structural, Debug)]
pub enum Bitness {
    X86,
    X64,
}

impl Bitness {
    /// Pointer width in bytes.
    pub open spec fn spec_ptr_bytes(self) -> u64 {
        match self {
            Bitness::X86 => 4,
            Bitness::X64 => 8,
        }
    }

    /// Pointer width in bytes.
    pub fn ptr_bytes(self) -> (r: u64)
        ensures
            r == self.spec_ptr_bytes(),
    {
        match self {
            Bitness::X86 => 4,
            Bitness::X64 => 8,
        }
    }
}

/// Why one signature or one remote read failed. A failure is always local to
/// the request that caused it; it never aborts a batch.
#[derive(Clone, Copy, PartialEq, Eq, Structural, Debug)]
pub enum ScanError {
    /// Malformed pattern text, rejected before any scanning.
    ParseError,
    /// The pattern does not occur in the scanned region.
    NotFound,
    /// A remote read fell outside the captured memory.
    ReadFailed,
    /// A name string in the target's tables has no terminator within the
    /// sanity cap.
    CorruptStructure,
}

} // verus!
