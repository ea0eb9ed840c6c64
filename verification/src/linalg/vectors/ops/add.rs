//! Addition of vectors.

use crate::linalg::vectors::Vector;
use std::ops::Add;
use vstd::prelude::*;
use vstd::std_specs::ops::AddSpec;

verus! {

impl<A> Vector<A> where A: Copy + PartialEq + Add<Output = A> {
    /// The sum of this vector and `rhs`: the vector of the sums of their
    /// components, place by place. Both have the same dimension, and each
    /// pair of components can be added.
    pub fn add(&self, rhs: &Self) -> (sum: Self)
        requires
            self@.len() == rhs@.len(),
            forall|i: int| 0 <= i < self@.len() ==> (#[trigger] self@[i]).add_req(rhs@[i]),
        ensures
            sum@.len() == self@.len(),
            forall|i: int|
                0 <= i < self@.len() ==> call_ensures(
                    A::add,
                    (self@[i], rhs@[i]),
                    #[trigger] sum@[i],
                ),
            A::obeys_add_spec() ==> forall|i: int|
                0 <= i < self@.len() ==> #[trigger] sum@[i] == self@[i].add_spec(rhs@[i]),
    {
        let len = self.components.len();
        let mut components: Vec<A> = Vec::with_capacity(len);
        let mut i: usize = 0;
        while i < len
            invariant
                len == self@.len() == rhs@.len(),
                i <= len,
                components@.len() == i,
                forall|k: int|
                    0 <= k < i ==> call_ensures(
                        A::add,
                        (self@[k], rhs@[k]),
                        #[trigger] components@[k],
                    ),
                forall|k: int| 0 <= k < self@.len() ==> (#[trigger] self@[k]).add_req(rhs@[k]),
                A::obeys_add_spec() ==> forall|k: int|
                    0 <= k < i ==> #[trigger] components@[k] == self@[k].add_spec(rhs@[k]),
            decreases len - i,
        {
            let x = self.components[i];
            let y = rhs.components[i];
            components.push(x.add(y));
            i = i + 1;
        }
        Vector { components }
    }
}

} // verus!
