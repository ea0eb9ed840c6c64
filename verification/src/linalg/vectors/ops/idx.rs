//! Reading a component of a vector by its place.

use crate::linalg::vectors::Vector;
use core::ops::Index;
use vstd::prelude::*;

verus! {

impl<T> Index<u64> for Vector<T> where T: PartialEq + Copy {
    type Output = T;

    /// The component at the place `index`, counted from one.
    fn index(&self, index: u64) -> (output: &T)
        ensures
            *output == self@[index - 1],
    {
        let len = self.components.len();
        assert(index - 1 < len);
        &(self.components[(index - 1) as usize])
    }
}

impl<T> vstd::std_specs::core::IndexSpecImpl<u64> for Vector<T> where T: PartialEq + Copy {
    open spec fn index_req(&self, index: &u64) -> bool {
        1 <= *index <= self@.len()
    }
}

} // verus!
