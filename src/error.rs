use vstd::prelude::*;

verus! {

/// What a comparison of embeddings or a retrieval can fail with.
#[derive(Debug, Clone, PartialEq, Eq)]
pub enum SearchError {
    /// The two vectors compared have different lengths.
    DimensionMismatch { left: usize, right: usize },
    /// A vector of zero norm was normalised or compared.
    DegenerateVector,
    /// The store failed to read or write; its message is kept as it came.
    StorageFailure(String),
}

} // verus!
