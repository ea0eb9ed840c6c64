//! Negation of vectors.

use crate::linalg::vectors::Vector;
use core::ops::Neg;
use vstd::prelude::*;
use vstd::std_specs::ops::NegSpec;

verus! {

impl<A> Vector<A> where A: Copy + PartialEq + Neg<Output = A> {
    /// The negative of this vector: the vector of the negatives of its
    /// components. Each component can be negated.
    pub fn neg(&self) -> (negative: Vector<A>)
        requires
            forall|i: int| 0 <= i < self@.len() ==> (#[trigger] self@[i]).neg_req(),
        ensures
            negative@.len() == self@.len(),
            forall|i: int|
                0 <= i < self@.len() ==> call_ensures(A::neg, (self@[i],), #[trigger] negative@[i]),
            A::obeys_neg_spec() ==> forall|i: int|
                0 <= i < self@.len() ==> #[trigger] negative@[i] == self@[i].neg_spec(),
    {
        let len = self.components.len();
        let mut components: Vec<A> = Vec::with_capacity(len);
        let mut i: usize = 0;
        while i < len
            invariant
                len == self@.len(),
                i <= len,
                components@.len() == i,
                forall|k: int|
                    0 <= k < i ==> call_ensures(A::neg, (self@[k],), #[trigger] components@[k]),
                forall|k: int| 0 <= k < self@.len() ==> (#[trigger] self@[k]).neg_req(),
                A::obeys_neg_spec() ==> forall|k: int|
                    0 <= k < i ==> #[trigger] components@[k] == self@[k].neg_spec(),
            decreases len - i,
        {
            let x = self.components[i];
            components.push(x.neg());
            i = i + 1;
        }
        Vector { components }
    }
}

} // verus!
