//! Tangent bundles: the dimension bookkeeping of TM.
use vstd::prelude::*;

verus! {

/// The tangent bundle TM of an n-manifold M, a manifold of dimension 2n.
#[derive(Clone, Debug)]
pub struct TangentBundle {
    /// Dimension of the base manifold.
    pub base_dimension: usize,
    /// Total dimension of the bundle (2 * base_dimension).
    pub total_dimension: usize,
}

impl TangentBundle {
    /// The tangent bundle of a manifold of dimension `base_dimension`.
    pub fn new(base_dimension: usize) -> (tb: Self)
        requires
            2 * base_dimension <= usize::MAX,
        ensures
            tb.base_dimension == base_dimension,
            tb.total_dimension == 2 * base_dimension,
    {
        TangentBundle { base_dimension, total_dimension: 2 * base_dimension }
    }
}

} // verus!
