//! Failure taxonomy of the pipeline.

use vstd::prelude::*;

verus! {

/// Everything that can go wrong between a command and its result.
/// The library's own functions return `FormatError` (malformed store
/// bytes) and `DimensionMismatch` (query vector length differs from a
/// stored vector); the surrounding binary reports file, glob, tokenizer
/// and model failures with the same type.
#[derive(Clone, Copy, PartialEq, Eq, Structural, Debug)]
pub enum Error {
    IoError,
    FormatError,
    TokenizerError,
    EmbeddingError,
    DimensionMismatch,
    GlobError,
}

impl Error {
    /// A human-readable description of the failure.
    pub fn describe(&self) -> &'static str {
        match self {
            Error::IoError => "could not read or write a file",
            Error::FormatError => "malformed embedding store",
            Error::TokenizerError => "the tokenizer could not be built or run",
            Error::EmbeddingError => "the embedding model could not be built or run",
            Error::DimensionMismatch => "query vector length differs from a stored vector",
            Error::GlobError => "malformed glob pattern or unreadable path",
        }
    }
}

} // verus!
