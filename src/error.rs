use vstd::prelude::*;

verus! {

/// The ways in which building or parsing a tag, a chunk or an image can fail.
#[derive(Debug, Clone, Copy, PartialEq, Eq, Structural)]
pub enum PngError {
    InvalidTag,
    TruncatedRecord,
    CrcMismatch,
    BadSignature,
    NoSuchChunk,
    NotUtf8,
}

} // verus!
