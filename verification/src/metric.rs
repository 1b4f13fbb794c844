//! Similarity metrics understood by the indexes.

use vstd::prelude::*;

verus! {

/// Similarity metric used to compare two embeddings.
#[derive(Clone, Copy, Debug, PartialEq, Eq, Hash, Structural)]
pub enum Metric {
    /// Cosine similarity in `[-1, 1]`, higher is closer.
    Cosine,
    /// Raw dot product, higher is closer.
    DotProduct,
    /// Euclidean (L2) distance, returned negated so higher is closer.
    Euclidean,
}

} // verus!
