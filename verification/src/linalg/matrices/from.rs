//! Making a matrix from its components.

use crate::linalg::matrices::{Matrix, MatrixView};
use vstd::prelude::*;
use vstd::slice::slice_to_vec;

verus! {

/// What can hand over the components of a matrix.
pub trait Components<T> {
    /// The components, in order.
    spec fn items(&self) -> Seq<T>;

    /// The components, in order.
    fn into_components(self) -> (components: Vec<T>)
        ensures
            components@ == self.items(),
    ;
}

impl<T> Components<T> for Box<[T]> {
    open spec fn items(&self) -> Seq<T> {
        self@
    }

    fn into_components(self) -> (components: Vec<T>) {
        self.into_vec()
    }
}

impl<T: Copy, const LEN: usize> Components<T> for [T; LEN] {
    open spec fn items(&self) -> Seq<T> {
        self@
    }

    fn into_components(self) -> (components: Vec<T>) {
        slice_to_vec(self.as_slice())
    }
}

impl<T> Matrix<T> where T: PartialEq + Copy {
    /// The matrix of `rows` rows and `cols` columns that holds the given
    /// components, row after row: `value` is the components, `rows` and
    /// `cols`. There are exactly `rows * cols` components.
    pub fn from<C: Components<T>>(value: (C, u32, u32)) -> (matrix: Self)
        requires
            value.1 * value.2 == value.0.items().len(),
        ensures
            matrix@ == (MatrixView {
                rows: value.1 as nat,
                cols: value.2 as nat,
                components: value.0.items(),
            }),
            matrix@.well_formed(),
    {
        let (components, rows, cols) = value;
        Matrix { rows, cols, components: components.into_components() }
    }
}

} // verus!
