//! The dot product of vectors.
//!
//! The products of the components are added up from the first to the last,
//! by the addition of the scalar. Only where there is nothing to add is the
//! scalar's `Sum` asked, for its zero.

use crate::linalg::vectors::Vector;
use std::iter::Sum;
use std::ops::{Add, Mul};
use vstd::prelude::*;
use vstd::std_specs::ops::{AddSpec, MulSpec};

verus! {

/// `Iterator::sum` over a `Vec` without items: what the `Sum` of the scalar
/// gives where there is nothing to add, its zero. What comes back is for that
/// `Sum` to say: nothing is claimed of it here.
#[verifier::external_body]
fn sum_of<T: Sum<T>>(terms: Vec<T>) -> T
    requires
        terms@.len() == 0,
{
    terms.into_iter().sum()
}

/// How many places two vectors have in common: the dimension of the shorter.
pub open spec fn common_len<T>(left: Seq<T>, right: Seq<T>) -> nat {
    if left.len() <= right.len() {
        left.len()
    } else {
        right.len()
    }
}

/// The components of `left` and `right` can be multiplied, place by place, as
/// far as both have components.
pub open spec fn products_defined<T: Mul<Output = T>>(left: Seq<T>, right: Seq<T>) -> bool {
    forall|i: int| 0 <= i < left.len() && i < right.len() ==> (#[trigger] left[i]).mul_req(right[i])
}

/// `terms` are products of the components of `left` and `right`, place by
/// place, as far as both have components: each is what the multiplication of
/// the scalar gives for its two components.
pub open spec fn is_products<T: Mul<Output = T>>(
    left: Seq<T>,
    right: Seq<T>,
    terms: Seq<T>,
) -> bool {
    &&& terms.len() == common_len(left, right)
    &&& forall|i: int|
        0 <= i < terms.len() ==> call_ensures(T::mul, (left[i], right[i]), #[trigger] terms[i])
}

/// The products of the components of `left` and `right`, place by place, as
/// far as both have components, for a scalar whose multiplication is
/// `mul_spec`.
pub open spec fn products_of<T: Mul<Output = T>>(left: Seq<T>, right: Seq<T>) -> Seq<T> {
    Seq::new(common_len(left, right), |i: int| left[i].mul_spec(right[i]))
}

/// `totals` are the running totals of adding up `terms` from the first to
/// the last: the first total is the first term, and each further total is
/// what the addition of the scalar gives for the total before it and the
/// term at its place. There is one term at least.
pub open spec fn running_totals<T: Add<Output = T>>(terms: Seq<T>, totals: Seq<T>) -> bool {
    &&& terms.len() > 0
    &&& totals.len() == terms.len()
    &&& totals[0] == terms[0]
    &&& forall|k: int|
        0 < k < terms.len() ==> call_ensures(
            T::add,
            (totals[k - 1], terms[k]),
            #[trigger] totals[k],
        )
}

/// The terms added up from the first to the last, for a scalar whose addition
/// is `add_spec`. There is one term at least.
pub open spec fn added_up<T: Add<Output = T>>(terms: Seq<T>) -> T
    recommends
        terms.len() > 0,
    decreases terms.len(),
{
    if terms.len() <= 1 {
        terms[0]
    } else {
        added_up(terms.drop_last()).add_spec(terms.last())
    }
}

/// The products of `left` and `right` can be added up: whatever the running
/// totals of the first products are, the next product can be added to the
/// last of them.
pub open spec fn sums_defined<T: Add<Output = T> + Mul<Output = T>>(
    left: Seq<T>,
    right: Seq<T>,
) -> bool {
    forall|terms: Seq<T>, totals: Seq<T>|
        is_products(left, right, terms) && 0 < totals.len() < terms.len()
            && #[trigger] running_totals(terms.take(totals.len() as int), totals)
            ==> totals.last().add_req(terms[totals.len() as int])
}

/// For a scalar whose multiplication is `mul_spec`, the products of two
/// vectors are `products_of` them.
pub proof fn lemma_products<T: Mul<Output = T>>(left: Seq<T>, right: Seq<T>, terms: Seq<T>)
    requires
        T::obeys_mul_spec(),
        is_products(left, right, terms),
    ensures
        terms == products_of(left, right),
{
    assert(terms =~= products_of(left, right));
}

/// For a scalar whose addition is `add_spec`, each running total is the
/// terms up to its place `added_up`.
pub proof fn lemma_added_up<T: Add<Output = T>>(terms: Seq<T>, totals: Seq<T>, k: int)
    requires
        T::obeys_add_spec(),
        running_totals(terms, totals),
        0 <= k < terms.len(),
    ensures
        totals[k] == added_up(terms.take(k + 1)),
    decreases k,
{
    let upto = terms.take(k + 1);
    if k > 0 {
        lemma_added_up(terms, totals, k - 1);
        assert(upto.drop_last() =~= terms.take(k));
        assert(upto.last() == terms[k]);
    }
}

/// For a scalar whose multiplication and addition are `mul_spec` and
/// `add_spec`, the products of two vectors can be added up where each total
/// of the first products can take the next one.
pub proof fn lemma_sums_defined<T: Add<Output = T> + Mul<Output = T>>(left: Seq<T>, right: Seq<T>)
    requires
        T::obeys_mul_spec(),
        T::obeys_add_spec(),
        forall|k: int|
            0 < k < common_len(left, right) ==> (#[trigger] added_up(
                products_of(left, right).take(k),
            )).add_req(products_of(left, right)[k]),
    ensures
        sums_defined(left, right),
{
    assert forall|terms: Seq<T>, totals: Seq<T>|
        is_products(left, right, terms) && 0 < totals.len() < terms.len()
            && #[trigger] running_totals(terms.take(totals.len() as int), totals)
        implies totals.last().add_req(terms[totals.len() as int]) by {
        let k = totals.len() as int;
        lemma_products(left, right, terms);
        lemma_added_up(terms.take(k), totals, k - 1);
        assert(terms.take(k).take(k) =~= terms.take(k));
    }
}

impl<T> Vector<T> where T: Copy + PartialEq + Mul<Output = T> {
    /// The products of the components of this vector and of `other`, place by
    /// place: as many as the shorter of the two has components.
    pub fn products(&self, other: &Vector<T>) -> (terms: Vec<T>)
        requires
            products_defined(self@, other@),
        ensures
            is_products(self@, other@, terms@),
            T::obeys_mul_spec() ==> terms@ == products_of(self@, other@),
    {
        let len = if self.components.len() < other.components.len() {
            self.components.len()
        } else {
            other.components.len()
        };
        let mut terms: Vec<T> = Vec::with_capacity(len);
        let mut i: usize = 0;
        while i < len
            invariant
                len == common_len(self@, other@),
                i <= len,
                terms@.len() == i,
                forall|k: int|
                    0 <= k < i ==> call_ensures(
                        T::mul,
                        (self@[k], other@[k]),
                        #[trigger] terms@[k],
                    ),
                products_defined(self@, other@),
            decreases len - i,
        {
            let v = self.components[i];
            let w = other.components[i];
            terms.push(v.mul(w));
            i = i + 1;
        }
        proof {
            if T::obeys_mul_spec() {
                lemma_products(self@, other@, terms@);
            }
        }
        terms
    }
}

impl<T> Vector<T> where T: Copy + PartialEq + Add<Output = T> + Mul<Output = T> + Sum<T> {
    /// The dot product of this vector and `other`: the products of their
    /// components, which [`Vector::products`] gives, added up from the first
    /// to the last. Each product can be added to the total of those before it.
    ///
    /// Where one of the vectors has no components there is nothing to add:
    /// the result is then the zero that the `Sum` of the scalar gives.
    pub fn dot(&self, other: &Vector<T>) -> (product: T)
        requires
            products_defined(self@, other@),
            sums_defined(self@, other@),
        ensures
            common_len(self@, other@) > 0 ==> exists|terms: Seq<T>, totals: Seq<T>|
                is_products(self@, other@, terms) && #[trigger] running_totals(terms, totals)
                    && product == totals.last(),
            common_len(self@, other@) > 0 && T::obeys_mul_spec() && T::obeys_add_spec()
                ==> product == added_up(products_of(self@, other@)),
    {
        let terms = self.products(other);
        if terms.len() == 0 {
            return sum_of(terms);
        }
        let mut total = terms[0];
        let ghost mut totals = seq![total];
        let mut i: usize = 1;
        while i < terms.len()
            invariant
                1 <= i <= terms@.len(),
                is_products(self@, other@, terms@),
                sums_defined(self@, other@),
                totals.len() == i,
                running_totals(terms@.take(i as int), totals),
                total == totals.last(),
            decreases terms.len() - i,
        {
            let term = terms[i];
            total = total.add(term);
            proof {
                let before = totals;
                totals = totals.push(total);
                assert forall|k: int| 0 < k < i + 1 implies call_ensures(
                    T::add,
                    (totals[k - 1], terms@.take(i + 1)[k]),
                    #[trigger] totals[k],
                ) by {
                    if k < i {
                        assert(totals[k] == before[k]);
                        assert(call_ensures(
                            T::add,
                            (before[k - 1], terms@.take(i as int)[k]),
                            before[k],
                        ));
                    }
                }
            }
            i = i + 1;
        }
        proof {
            assert(terms@.take(i as int) =~= terms@);
            if T::obeys_mul_spec() && T::obeys_add_spec() {
                lemma_products(self@, other@, terms@);
                lemma_added_up(terms@, totals, i - 1);
            }
        }
        total
    }
}

} // verus!
