//! Mathematical vectors.
//!
//! A vector of dimension `n` is a sequence of `n` scalar components. It is
//! made once and never changed; every operation hands back a new vector.
//! Components are counted from one.

use crate::linalg::Dimension;
use vstd::prelude::*;

mod from;
pub mod iter;
mod ops;

pub use ops::dot::{
    added_up,
    common_len,
    is_products,
    lemma_added_up,
    lemma_products,
    lemma_sums_defined,
    products_defined,
    products_of,
    running_totals,
    sums_defined,
};

verus! {

/// A mathematical vector.
#[derive(Debug)]
pub struct Vector<T> where T: Copy + PartialEq {
    components: Vec<T>,
}

impl<T> View for Vector<T> where T: Copy + PartialEq {
    type V = Seq<T>;

    closed spec fn view(&self) -> Seq<T> {
        self.components@
    }
}

impl<T> Dimension for Vector<T> where T: Copy + PartialEq {
    open spec fn dimension(&self) -> nat {
        self@.len()
    }

    /// The number of components of this vector: the dimension of the space
    /// it belongs to, not its magnitude.
    fn dim(&self) -> (count: u64) {
        self.components.len() as u64
    }
}

} // verus!
