//! Mathematical matrices.
//!
//! A matrix of `m` rows and `n` columns holds `m * n` scalar components, row
//! after row. Rows and columns are counted from one.

use crate::linalg::Dimension;
use vstd::prelude::*;

mod from;
mod ops;

pub use from::Components;

verus! {

/// A mathematical matrix.
#[derive(Debug)]
pub struct Matrix<T> where T: Copy + PartialEq {
    components: Vec<T>,
    /// The number of rows.
    pub rows: u32,
    /// The number of columns.
    pub cols: u32,
}

/// What a matrix holds: its numbers of rows and columns, and its components,
/// row after row.
pub struct MatrixView<T> {
    pub rows: nat,
    pub cols: nat,
    pub components: Seq<T>,
}

impl<T> MatrixView<T> {
    /// There are as many components as the rows and columns ask for.
    pub open spec fn well_formed(self) -> bool {
        self.rows * self.cols == self.components.len()
    }

    /// The row and the column, counted from one, are within the matrix.
    pub open spec fn holds(self, row: int, col: int) -> bool {
        1 <= row <= self.rows && 1 <= col <= self.cols
    }

    /// The component at a row and a column, both counted from one.
    pub open spec fn at(self, row: int, col: int) -> T
        recommends
            self.well_formed(),
            self.holds(row, col),
    {
        self.components[(row - 1) * self.cols + (col - 1)]
    }
}

impl<T> View for Matrix<T> where T: Copy + PartialEq {
    type V = MatrixView<T>;

    closed spec fn view(&self) -> MatrixView<T> {
        MatrixView {
            rows: self.rows as nat,
            cols: self.cols as nat,
            components: self.components@,
        }
    }
}

impl<T> Matrix<T> where T: Copy + PartialEq {
    /// Whether the matrix holds as many components as its rows and columns
    /// ask for. The numbers of rows and columns can be set by anyone: a
    /// component can be read only where they still fit the components.
    pub fn is_well_formed(&self) -> (fit: bool)
        ensures
            fit == self@.well_formed(),
    {
        assert(self.rows * self.cols <= 0xffff_ffff * 0xffff_ffff) by (nonlinear_arith)
            requires
                self.rows <= 0xffff_ffff,
                self.cols <= 0xffff_ffff,
        ;
        (self.rows as u64) * (self.cols as u64) == self.components.len() as u64
    }
}

impl<T> Dimension for Matrix<T> where T: Copy + PartialEq {
    open spec fn dimension(&self) -> nat {
        self@.rows * self@.cols
    }

    /// The number of components of this matrix.
    fn dim(&self) -> (count: u64) {
        assert(self.rows * self.cols <= 0xffff_ffff * 0xffff_ffff) by (nonlinear_arith)
            requires
                self.rows <= 0xffff_ffff,
                self.cols <= 0xffff_ffff,
        ;
        (self.rows as u64) * (self.cols as u64)
    }
}

} // verus!
