//! Multiplication of a vector by a scalar.

use crate::linalg::vectors::Vector;
use std::ops::Mul;
use vstd::prelude::*;
use vstd::std_specs::ops::MulSpec;

verus! {

impl<T> Vector<T> where T: Copy + PartialEq + Mul<Output = T> {
    /// This vector multiplied by `scalar`: the vector of its components, each
    /// multiplied by `scalar`. Each component can be multiplied by it.
    pub fn scale_by(&self, scalar: T) -> (scaled: Self)
        requires
            forall|i: int| 0 <= i < self@.len() ==> (#[trigger] self@[i]).mul_req(scalar),
        ensures
            scaled@.len() == self@.len(),
            forall|i: int|
                0 <= i < self@.len() ==> call_ensures(
                    T::mul,
                    (self@[i], scalar),
                    #[trigger] scaled@[i],
                ),
            T::obeys_mul_spec() ==> forall|i: int|
                0 <= i < self@.len() ==> #[trigger] scaled@[i] == self@[i].mul_spec(scalar),
    {
        let len = self.components.len();
        let mut components: Vec<T> = Vec::with_capacity(len);
        let mut i: usize = 0;
        while i < len
            invariant
                len == self@.len(),
                i <= len,
                components@.len() == i,
                forall|k: int|
                    0 <= k < i ==> call_ensures(
                        T::mul,
                        (self@[k], scalar),
                        #[trigger] components@[k],
                    ),
                forall|k: int| 0 <= k < self@.len() ==> (#[trigger] self@[k]).mul_req(scalar),
                T::obeys_mul_spec() ==> forall|k: int|
                    0 <= k < i ==> #[trigger] components@[k] == self@[k].mul_spec(scalar),
            decreases len - i,
        {
            let x = self.components[i];
            components.push(x.mul(scalar));
            i = i + 1;
        }
        Vector { components }
    }
}

} // verus!
