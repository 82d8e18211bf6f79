//! Typed failures surfaced by the engine.

use vstd::prelude::*;

verus! {

/// Every failure the engine can report to a caller.
#[derive(Clone, Copy, Debug, PartialEq, Eq, Structural)]
pub enum EngineError {
    /// A metadata record is present but fails structural validation.
    MalformedMetadata,
    /// The item's directory no longer exists at load time.
    ItemDirectoryMissing,
    /// The body file named by the metadata record is absent.
    MissingBodyFile,
    /// The requested id has no entry in the current index.
    NotFound,
    /// The requested page index exceeds the page count of a non-empty
    /// collection.
    PageOutOfRange,
}

impl EngineError {
    /// A short human-readable description of the failure.
    pub fn message(&self) -> (r: &'static str)
        ensures
            r@.len() > 0,
    {
        let m = match self {
            EngineError::MalformedMetadata => "metadata record is malformed",
            EngineError::ItemDirectoryMissing => "article directory is missing",
            EngineError::MissingBodyFile => "article body file is missing",
            EngineError::NotFound => "article not found",
            EngineError::PageOutOfRange => "page number out of range",
        };
        proof {
            reveal_strlit("metadata record is malformed");
            reveal_strlit("article directory is missing");
            reveal_strlit("article body file is missing");
            reveal_strlit("article not found");
            reveal_strlit("page number out of range");
        }
        m
    }
}

} // verus!
