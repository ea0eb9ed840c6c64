//! Equality of vectors.

use crate::linalg::vectors::Vector;
use vstd::prelude::*;
use vstd::std_specs::cmp::{PartialEqSpec, PartialEqSpecImpl};

verus! {

impl<T> PartialEq for Vector<T> where T: Copy + PartialEq {
    /// Whether the components of this vector and of `other` are equal, place
    /// by place. Where one vector is longer, its further components are not
    /// looked at.
    fn eq(&self, other: &Self) -> (equal: bool)
        ensures
            equal ==> forall|k: int|
                0 <= k < self@.len() && k < other@.len() ==> call_ensures(
                    T::eq,
                    (&#[trigger] self@[k], &other@[k]),
                    true,
                ),
            !equal ==> exists|k: int|
                0 <= k < self@.len() && k < other@.len() && call_ensures(
                    T::eq,
                    (&#[trigger] self@[k], &other@[k]),
                    false,
                ),
    {
        let len = if self.components.len() < other.components.len() {
            self.components.len()
        } else {
            other.components.len()
        };
        let mut i: usize = 0;
        while i < len
            invariant
                len <= self@.len(),
                len <= other@.len(),
                i <= len,
                forall|k: int|
                    0 <= k < i ==> call_ensures(T::eq, (&#[trigger] self@[k], &other@[k]), true),
                T::obeys_eq_spec() ==> forall|k: int|
                    0 <= k < i ==> (#[trigger] self@[k]).eq_spec(&other@[k]),
            decreases len - i,
        {
            let x = self.components[i];
            let y = other.components[i];
            if !x.eq(&y) {
                return false;
            }
            i = i + 1;
        }
        true
    }
}

impl<T> PartialEqSpecImpl for Vector<T> where T: Copy + PartialEq {
    open spec fn obeys_eq_spec() -> bool {
        T::obeys_eq_spec()
    }

    open spec fn eq_spec(&self, other: &Vector<T>) -> bool {
        forall|k: int|
            0 <= k < self@.len() && k < other@.len() ==> (#[trigger] self@[k]).eq_spec(&other@[k])
    }
}

} // verus!
