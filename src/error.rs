//! The failures that decoding and rewriting can report.
use vstd::prelude::*;

verus! {

/// What went wrong while decoding or re-encoding a container.
#[derive(Debug, Clone, Copy, PartialEq, Eq, Structural)]
pub enum Error {
    /// The underlying file could not be opened, read or written.
    Io,
    /// The leading magic bytes are not those of the expected format.
    MissingHeader,
    /// A type identifier has no entry in the resource type catalog.
    UnknownResourceType,
    /// No index entry matches the requested archive and resource name.
    ResourceNotFound,
    /// A declared record or payload runs past the end of the data.
    ShortRead,
    /// The recomputed layout does not fit the format's 32-bit fields, or the
    /// resource identifiers do not address the resource list one to one.
    InvalidLayout,
}

} // verus!
