//! Embedding values and similarity ranking support. Vector components are
//! carried as the bit patterns of 32-bit floats; the numeric layer around
//! the library interprets them and hands scores back as totally ordered
//! keys, so that ranking itself is verified.

use vstd::prelude::*;

use crate::error::ServerError;

verus! {

/// Supported embedding providers.
#[derive(Debug, Clone, Copy, PartialEq, Eq, Structural)]
pub enum EmbeddingProvider {
    OpenAI,
    ONNX,
}

/// An embedding vector with metadata. `values` holds the bit patterns of
/// the vector's 32-bit float components; `dimensions` counts them.
#[derive(Debug, Clone)]
pub struct Embedding {
    /// Bit patterns of the vector components.
    pub values: Vec<u32>,
    /// Which provider generated this embedding.
    pub provider: EmbeddingProvider,
    /// The model that generated it.
    pub model: String,
    /// Number of components.
    pub dimensions: usize,
}

impl Embedding {
    /// The dimension field counts the stored components.
    pub open spec fn wf(self) -> bool {
        self.dimensions == self.values@.len()
    }

    /// Wrap a vector with its provider and model; the dimension is the
    /// vector's length.
    pub fn new(vector: Vec<u32>, provider: EmbeddingProvider, model: String) -> (r: Self)
        ensures
            r.values@ == vector@,
            r.provider == provider,
            r.model@ == model@,
            r.dimensions == vector@.len(),
            r.wf(),
    {
        let dimensions = vector.len();
        Embedding { values: vector, provider, model, dimensions }
    }
}

/// Two embeddings may be compared exactly when their dimensions agree; a
/// mismatch reports both dimensions.
pub fn check_dimensions(e1: &Embedding, e2: &Embedding) -> (r: Result<(), ServerError>)
    ensures
        r is Ok <==> e1.dimensions == e2.dimensions,
        r is Err ==> r == Result::<(), ServerError>::Err(
            ServerError::DimensionMismatch { expected: e1.dimensions, actual: e2.dimensions },
        ),
{
    if e1.dimensions == e2.dimensions {
        Ok(())
    } else {
        Err(ServerError::DimensionMismatch { expected: e1.dimensions, actual: e2.dimensions })
    }
}

/// The index of the best score: no score is greater, and every earlier
/// score is strictly smaller, so the first occurrence wins ties. `None`
/// exactly on an empty list.
pub fn best_match_index(scores: &Vec<i64>) -> (r: Option<usize>)
    ensures
        r is None <==> scores@.len() == 0,
        match r {
            Some(i) => {
                &&& (i as int) < scores@.len()
                &&& forall|j: int| 0 <= j < scores@.len() ==> scores@[j] <= scores@[i as int]
                &&& forall|j: int| 0 <= j < i as int ==> scores@[j] < scores@[i as int]
            },
            None => true,
        },
{
    if scores.len() == 0 {
        return None;
    }
    let n = scores.len();
    let mut best: usize = 0;
    let mut k: usize = 1;
    while k < n
        invariant
            best < k <= n,
            n == scores@.len(),
            forall|j: int| 0 <= j < k ==> scores@[j] <= scores@[best as int],
            forall|j: int| 0 <= j < best as int ==> scores@[j] < scores@[best as int],
        decreases n - k,
    {
        if scores[k] > scores[best] {
            best = k;
        }
        k = k + 1;
    }
    Some(best)
}

} // verus!
