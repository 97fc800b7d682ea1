use vstd::prelude::*;

verus! {

/// Everything that can go wrong while encoding or decoding a symbol.
#[derive(Debug, Clone, PartialEq, Eq)]
pub enum JabError {
    /// A color count other than 4, 8, 16, 32, 64, 128 or 256.
    InvalidColorCount(u32),
    /// The payload (first field, in bytes) exceeds what the configuration holds (second field).
    DataTooLarge(usize, usize),
    /// The payload needs more symbols than the given maximum.
    VersionOverflow(usize),
    /// Decoding failed for the stated reason.
    DecodeError(String),
    /// Belief propagation ran out of iterations.
    LdpcNoConverge,
    /// Fewer than four finder patterns were found in the image.
    PatternNotFound,
    /// The module grid has impossible dimensions.
    InvalidMatrix(u32, u32),
    /// The GPU backend is unavailable for the stated reason.
    GpuError(String),
    /// A null pointer crossed the C boundary.
    NullPointer,
    /// A string that crossed the C boundary was not UTF-8.
    InvalidUtf8,
}

/// Results of the codec's fallible operations.
pub type Result<T> = std::result::Result<T, JabError>;

} // verus!
