pub mod compress;
pub mod edge_iter;
pub mod matrix;
pub mod normalize;
pub mod order;

pub use edge_iter::GraphMatrixIterator;
pub use matrix::GraphMatrix;

use vstd::prelude::*;

verus! {

/// Failure conditions for constructing or querying a sparse adjacency matrix.
#[derive(Debug, Clone, Copy, PartialEq, Eq, Structural)]
pub enum GraphMatrixError {
    InvalidIndex,
    BoundsError,
}

} // verus!
