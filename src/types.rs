//! The cached record and the library's error type.
use vstd::prelude::*;

verus! {

/// Why a cache operation failed.
#[derive(Debug, PartialEq, Eq)]
pub enum CacheError {
    /// An embedding's length differs from the configured dimension.
    DimensionMismatch { expected: usize, found: usize },
    /// The record store failed.
    Backend(String),
    /// A record could not be written as text.
    Encoding,
    /// The operation cannot be carried out in the current state.
    InvalidState,
}

/// A plain view of a record: id, query, embedding, response, timestamp.
pub type RecordView = (usize, Seq<char>, Seq<i16>, Seq<char>, u64);

/// One cached answer: the prompt, its embedding, and the response.
#[derive(Debug)]
pub struct EmbeddingData {
    pub id: usize,
    pub query: String,
    pub embedding: Vec<i16>,
    pub response: String,
    pub timestamp: u64,
}

impl EmbeddingData {
    pub open spec fn view(&self) -> RecordView {
        (self.id, self.query@, self.embedding@, self.response@, self.timestamp)
    }
}

} // verus!
