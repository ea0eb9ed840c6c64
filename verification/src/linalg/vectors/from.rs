//! Making a vector from its components.

use crate::linalg::vectors::Vector;
use vstd::prelude::*;
use vstd::slice::slice_to_vec;
use vstd::std_specs::convert::FromSpecImpl;

verus! {

/// A vector from a boxed slice of components.
impl<T> From<Box<[T]>> for Vector<T> where T: PartialEq + Copy {
    fn from(arr: Box<[T]>) -> (vector: Self)
        ensures
            vector@ == arr@,
    {
        Vector { components: arr.into_vec() }
    }
}

/// The contract of `from` speaks of the components that the new vector
/// holds: no spec function names the vector itself.
impl<T> FromSpecImpl<Box<[T]>> for Vector<T> where T: PartialEq + Copy {
    open spec fn obeys_from_spec() -> bool {
        false
    }

    open spec fn from_spec(arr: Box<[T]>) -> Self {
        arbitrary()
    }
}

/// A vector from an array of components.
impl<T, const LEN: usize> From<[T; LEN]> for Vector<T> where T: PartialEq + Copy {
    fn from(arr: [T; LEN]) -> (vector: Self)
        ensures
            vector@ == arr@,
    {
        Vector { components: slice_to_vec(arr.as_slice()) }
    }
}

/// The contract of `from` speaks of the components that the new vector
/// holds: no spec function names the vector itself.
impl<T, const LEN: usize> FromSpecImpl<[T; LEN]> for Vector<T> where T: PartialEq + Copy {
    open spec fn obeys_from_spec() -> bool {
        false
    }

    open spec fn from_spec(arr: [T; LEN]) -> Self {
        arbitrary()
    }
}

} // verus!
