//! Walking through the components of a vector.

use crate::linalg::vectors::Vector;
use vstd::prelude::*;

verus! {

/// A walk through the components of a vector, from the first to the last.
pub struct VectorIterator<'a, T> where T: Copy + PartialEq {
    iterable: &'a Vector<T>,
    index: u64,
}

impl<'a, T> VectorIterator<'a, T> where T: Copy + PartialEq {
    /// The components that are still to come, in order.
    pub closed spec fn remaining(&self) -> Seq<T> {
        self.iterable@.skip(self.index as int)
    }

    #[verifier::type_invariant]
    spec fn within_vector(&self) -> bool {
        self.index <= self.iterable@.len()
    }

    /// The next component, or `None` when all have been handed out.
    pub fn next(&mut self) -> (item: Option<T>)
        ensures
            old(self).remaining().len() > 0 ==> item == Some(old(self).remaining()[0])
                && final(self).remaining() == old(self).remaining().drop_first(),
            old(self).remaining().len() == 0 ==> item is None && final(self).remaining()
                == old(self).remaining(),
    {
        proof {
            use_type_invariant(&*self);
        }
        if self.index < self.iterable.components.len() as u64 {
            let component = self.iterable.components[self.index as usize];
            self.index = self.index + 1;
            assert(self.remaining() =~= old(self).remaining().drop_first());
            Some(component)
        } else {
            None
        }
    }
}

impl<T> Vector<T> where T: Copy + PartialEq {
    /// A walk through the components of this vector.
    pub fn iter(&self) -> (walk: VectorIterator<'_, T>)
        ensures
            walk.remaining() == self@,
    {
        let walk = VectorIterator { iterable: self, index: 0 };
        assert(walk.remaining() =~= self@);
        walk
    }
}

} // verus!
