//! Error taxonomy: malformed containers, chunks, or metadata are reported as
//! `FormatError`; a persisted frame artifact that can no longer be found is a
//! `CacheError`.
use vstd::prelude::*;

verus! {

#[derive(Clone, Copy, Debug, PartialEq, Eq, Structural)]
pub enum FormatError {
    /// A chunk's declared length would read past the end of the buffer.
    TruncatedChunk,
    /// A chunk that the operation needs (metadata or pixel data) is absent.
    MissingChunk,
    /// A required metadata directive is absent.
    MissingField,
    /// A numeric field cannot be parsed, or a list length disagrees with the
    /// declared frame count.
    InvalidValue,
    /// The raster is smaller than the layout demands.
    RasterTooSmall,
    /// Clipboard content is not a well-formed state envelope.
    InvalidEnvelope,
}

#[derive(Clone, Copy, Debug, PartialEq, Eq, Structural)]
pub enum CacheError {
    /// A referenced artifact file is absent from the scratch directory.
    MissingArtifact,
}

} // verus!
