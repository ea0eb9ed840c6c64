//! Vectors and matrices over any scalar that can be copied and compared.
//!
//! The containers know nothing of what a scalar is: they only need its
//! equality and the arithmetic of the operation at hand.

use vstd::prelude::*;

mod matrices;
mod vectors;

pub use matrices::{Components, Matrix, MatrixView};
pub use vectors::iter::VectorIterator;
pub use vectors::{
    added_up,
    common_len,
    is_products,
    lemma_added_up,
    lemma_products,
    lemma_sums_defined,
    products_defined,
    products_of,
    running_totals,
    sums_defined,
    Vector,
};

verus! {

/// What has a dimension, such as a vector or a matrix.
pub trait Dimension {
    /// The number of components.
    spec fn dimension(&self) -> nat;

    /// The number of components.
    fn dim(&self) -> (count: u64)
        ensures
            count == self.dimension(),
    ;

    /// Another name for [`Dimension::dim`].
    fn order(&self) -> (count: u64)
        ensures
            count == self.dimension(),
    {
        self.dim()
    }
}

} // verus!
