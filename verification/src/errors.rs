//! The error kinds this library reports.
//!
//! Every fallible operation's contract says exactly which kind it returns
//! and on which inputs, so callers can branch on the kind rather than on
//! message text.

use vstd::prelude::*;

verus! {

/// One kind per distinct user-visible failure.
#[derive(Debug, Clone, PartialEq, Eq)]
pub enum SafeError {
    /// A presentable address string does not decode to a raw network address.
    AddressMalformed,
    /// Local file metadata could not be read for the named path; a snapshot
    /// build aborts without producing a partial FilesMap.
    MetadataUnavailable(String),
    /// A stored snapshot payload is not a valid canonical encoding.
    CorruptSnapshot,
    /// The address resolves to no FilesContainer: nothing was ever created
    /// there, or the object there carries another type tag.
    ContainerNotFound,
    /// The store could not be reached.
    StoreUnavailable,
    /// The store rejected a write.
    WriteRejected,
    /// No blob is stored at the given address.
    NotFound,
    /// The appendable sequence at the address holds no entries at all.
    Empty,
}

} // verus!
