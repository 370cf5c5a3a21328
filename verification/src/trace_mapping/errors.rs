use vstd::prelude::*;

verus! {

/// Why the MIR control-flow graph could not be read.
#[derive(PartialEq, Eq, Structural, Clone, Copy, Debug)]
pub enum TraceMappingError {
    /// The binary has no MIR CFG section.
    NoCfg,
    /// The section ends inside a record, or before the end marker.
    Truncated,
    /// The section's format version is not the one this reader knows.
    VersionMismatch,
    /// A record has a kind byte that names no record kind.
    UnknownKind(u8),
    /// Two records describe the same block with different terminators.
    ConflictingTerminator,
}

} // verus!
