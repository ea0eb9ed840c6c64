//! Reading a component of a matrix by its row and column.

use crate::linalg::matrices::Matrix;
use std::ops::Index;
use vstd::prelude::*;

verus! {

impl<T> Index<(u32, u32)> for Matrix<T> where T: Copy + PartialEq {
    type Output = T;

    /// The component at the row and the column of `index`, both counted from
    /// one.
    fn index(&self, index: (u32, u32)) -> (output: &T)
        ensures
            *output == self@.at(index.0 as int, index.1 as int),
    {
        let (row, col) = index;
        let len = self.components.len();
        assert((row - 1) * self.cols + (col - 1) < self.rows * self.cols) by (nonlinear_arith)
            requires
                1 <= row <= self.rows,
                1 <= col <= self.cols,
        ;
        assert(0 <= (row - 1) * self.cols <= (row - 1) * self.cols + (col - 1)) by (nonlinear_arith)
            requires
                1 <= row,
                1 <= col,
                self.cols >= 0,
        ;
        let idx: usize = ((row - 1) as usize) * (self.cols as usize) + ((col - 1) as usize);
        &(self.components[idx])
    }
}

impl<T> vstd::std_specs::core::IndexSpecImpl<(u32, u32)> for Matrix<T> where T: Copy + PartialEq {
    open spec fn index_req(&self, index: &(u32, u32)) -> bool {
        &&& self@.well_formed()
        &&& self@.holds(index.0 as int, index.1 as int)
    }
}

} // verus!
