//! Negation. The smallest coefficient has no negative in range, so there are
//! three ways to negate: one that reports the overflow, one for callers who
//! know that there is none, and one that gives up a digit to avoid it.

use crate::num::text::{magnitude, lemma_pow10_values};
use crate::num::{Decimal, DecimalView, RoundingMode, MIN_COEFFICIENT};
use vstd::pervasive::unreached;
use vstd::prelude::*;

verus! {

impl DecimalView {
    /// The number of the opposite sign.
    pub open spec fn negated(self) -> DecimalView {
        DecimalView { coefficient: -self.coefficient, scaling: self.scaling }
    }

    /// The number of the opposite sign, with one digit less after the point
    /// where the coefficient is the smallest one.
    pub open spec fn rounding_negated(self, rounding_mode: RoundingMode) -> DecimalView {
        if self.coefficient == MIN_COEFFICIENT {
            self.downscaled(1, rounding_mode).negated()
        } else {
            self.negated()
        }
    }
}

impl Decimal {
    /// The negative of this number, or `None` where the coefficient is
    /// [`MIN_COEFFICIENT`], whose negative is out of range.
    pub fn checked_neg(self) -> (negative: Option<Self>)
        ensures
            match negative {
                Some(number) => self@.coefficient != MIN_COEFFICIENT && number@
                    == self@.negated(),
                None => self@.coefficient == MIN_COEFFICIENT,
            },
    {
        proof {
            use_type_invariant(self);
        }
        if self.coefficient == MIN_COEFFICIENT {
            None
        } else {
            Some(Decimal { coefficient: -self.coefficient, scaling: self.scaling })
        }
    }

    /// The negative of this number. Where the coefficient is
    /// [`MIN_COEFFICIENT`], the number is first downscaled by one digit, as
    /// `rounding_mode` says, which brings the coefficient into a range where
    /// it can be negated: a digit is lost, and the call always succeeds. Such
    /// a number must have a digit after the point to lose.
    pub fn rounding_neg(self, rounding_mode: &RoundingMode) -> (negative: Self)
        requires
            self@.coefficient == MIN_COEFFICIENT ==> self@.scaling >= 1,
        ensures
            negative@ == self@.rounding_negated(*rounding_mode),
    {
        match self.checked_neg() {
            Some(negative) => negative,
            None => {
                let shorter = self.downscale_by(1, rounding_mode);
                proof {
                    lemma_pow10_values();
                    assert(magnitude(self@.coefficient) == 2_147_483_648);
                    assert((2 * 2_147_483_648 + 10) / 20 == 214_748_365) by (nonlinear_arith);
                    assert(shorter@.coefficient == -214_748_365);
                }
                match shorter.checked_neg() {
                    Some(negative) => negative,
                    None => unreached(),
                }
            },
        }
    }

    /// The decimal number that is the negative of `self`.
    pub closed spec fn negative(self) -> Decimal {
        Decimal { coefficient: (-self.coefficient) as i32, scaling: self.scaling }
    }

    /// The negative of a number whose coefficient is not the smallest one is
    /// the negated number.
    pub broadcast proof fn lemma_negative(self)
        requires
            self@.coefficient != MIN_COEFFICIENT,
        ensures
            (#[trigger] self.negative())@ == self@.negated(),
    {
    }
}

impl core::ops::Neg for Decimal {
    type Output = Self;

    /// The negative of this number, whose coefficient is not
    /// [`MIN_COEFFICIENT`].
    fn neg(self) -> (negative: Self)
        ensures
            negative@ == self@.negated(),
    {
        match self.checked_neg() {
            Some(negative) => negative,
            None => unreached(),
        }
    }
}

impl vstd::std_specs::ops::NegSpecImpl for Decimal {
    open spec fn obeys_neg_spec() -> bool {
        true
    }

    open spec fn neg_req(self) -> bool {
        self@.coefficient != MIN_COEFFICIENT
    }

    open spec fn neg_spec(self) -> Decimal {
        self.negative()
    }
}

} // verus!
