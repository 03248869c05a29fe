use vstd::prelude::*;

verus! {

/// Error taxonomy of the repository core.
///
/// `NotFound` — a block or record is missing; the caller decides how to react.
/// `Malformed` — a corrupt block encoding, an invalid identity string or an
/// invalid content identifier; fatal to the operation.
/// `StoreError` — the block store refused a write; this in-memory store only
/// refuses a write whose content identifier already names different bytes.
/// `VerificationFailed` — a signature does not match; always fatal to that
/// finalize attempt.
/// `ProtocolMisuse` — an operation was called in a state that does not allow
/// it; a programming error surfaced immediately.
/// `UnsupportedAlgorithm` — the identity names a key algorithm the core does
/// not support; distinct from a malformed identity encoding.
#[derive(Clone, Copy, PartialEq, Eq, Structural, Debug)]
pub enum RepoError {
    NotFound,
    Malformed,
    StoreError,
    VerificationFailed,
    ProtocolMisuse,
    UnsupportedAlgorithm,
}

} // verus!
