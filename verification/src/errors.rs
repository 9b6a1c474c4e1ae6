//! The error kinds that store operations report.

use vstd::prelude::*;

verus! {

/// Everything that can go wrong in a store operation.
///
/// `IoError` and `LockPoisoned` never arise inside the verified engine; they
/// are reported by unverified callers that drive files and locks and reuse
/// this type so that the whole surface shares one error vocabulary.
#[derive(Clone, Copy, Debug, PartialEq, Eq, Structural)]
pub enum StoreError {
    /// A file could not be opened, read, written, renamed or removed.
    IoError,
    /// A prior panic left a lock unusable.
    LockPoisoned,
    /// The index snapshot bytes do not decode to an index.
    CorruptIndex,
    /// The index promises more bytes than the value log holds.
    TruncatedRead,
    /// A value failed to encode or decode.
    SerializationError,
    /// `delete` was asked to remove a key that is not present.
    KeyNotFound,
}

} // verus!
