//! Moving the decimal point of a number: more digits after it (upscaling,
//! which appends zeros) or fewer (downscaling, which rounds).

use crate::num::display::unsigned_abs;
use crate::num::text::{
    magnitude,
    pow10,
    lemma_div_pow10_step,
    lemma_pow10_monotonic,
    lemma_pow10_positive,
    lemma_pow10_values,
};
use crate::num::{
    Decimal,
    DecimalView,
    Error,
    ErrorView,
    RoundingMode,
    MAX_COEFFICIENT,
    MAX_SCALING,
    MIN_COEFFICIENT,
};
use vstd::arithmetic::div_mod::{
    lemma_breakdown,
    lemma_div_is_ordered_by_denominator,
    lemma_fundamental_div_mod,
    lemma_fundamental_div_mod_converse,
};
use vstd::pervasive::unreached;
use vstd::prelude::*;

verus! {

impl DecimalView {
    /// The number with `amount` more digits after the point. The coefficient
    /// gets `amount` zeros appended and must stay in range; the scaling factor
    /// must then not exceed [`MAX_SCALING`].
    pub open spec fn upscaled(self, amount: nat) -> Result<DecimalView, ErrorView> {
        let coefficient = self.coefficient * pow10(amount);
        if !(MIN_COEFFICIENT <= coefficient <= MAX_COEFFICIENT) {
            Err(ErrorView::CoefficientOverflow)
        } else if self.scaling + amount > MAX_SCALING {
            Err(ErrorView::ScalingOverflow)
        } else {
            Ok(DecimalView { coefficient, scaling: self.scaling + amount })
        }
    }

    /// The number with `amount` fewer digits after the point, rounded to the
    /// nearest neighbour, and away from zero where both are equally near.
    pub open spec fn downscaled_half_up(self, amount: nat) -> DecimalView {
        let unit = pow10(amount);
        let rounded = ((2 * magnitude(self.coefficient) + unit) / (2 * unit)) as int;
        DecimalView {
            coefficient: if self.coefficient < 0 {
                -rounded
            } else {
                rounded
            },
            scaling: (self.scaling - amount) as nat,
        }
    }

    /// The number with `amount` fewer digits after the point, rounded as
    /// `rounding_mode` says.
    pub open spec fn downscaled(self, amount: nat, rounding_mode: RoundingMode) -> DecimalView {
        match rounding_mode {
            RoundingMode::HalfUp => self.downscaled_half_up(amount),
        }
    }
}

/// Appending zeros never brings a coefficient back into range.
proof fn lemma_overflow_stays(coefficient: int, fewer: nat, more: nat)
    requires
        fewer <= more,
        !(MIN_COEFFICIENT <= coefficient * pow10(fewer) <= MAX_COEFFICIENT),
    ensures
        !(MIN_COEFFICIENT <= coefficient * pow10(more) <= MAX_COEFFICIENT),
{
    lemma_pow10_monotonic(fewer, more);
    lemma_pow10_positive(fewer);
    let low = pow10(fewer) as int;
    let high = pow10(more) as int;
    if coefficient > 0 {
        assert(coefficient * high >= coefficient * low >= 0) by (nonlinear_arith)
            requires
                coefficient > 0,
                high >= low > 0,
        ;
    } else {
        assert(coefficient * high <= coefficient * low <= 0) by (nonlinear_arith)
            requires
                coefficient <= 0,
                high >= low > 0,
        ;
    }
}

impl Decimal {
    /// Whether this number and `that` have the same scaling factor, that is
    /// the same count of digits after the point.
    pub fn is_aligned_to(self, that: Decimal) -> (aligned: bool)
        ensures
            aligned == (self@.scaling == that@.scaling),
    {
        self.scaling == that.scaling
    }

    /// This number with `amount` more digits after the point, for a call
    /// that is known to succeed.
    pub fn upscale_by(self, amount: u8) -> (scaled: Self)
        requires
            self@.upscaled(amount as nat) is Ok,
        ensures
            self@.upscaled(amount as nat) == Ok::<DecimalView, ErrorView>(scaled@),
    {
        match self.try_upscale_by(amount) {
            Ok(scaled) => scaled,
            Err(_) => unreached(),
        }
    }

    /// This number with `amount` more digits after the point: `amount` zeros
    /// are appended to the coefficient, which has the same value then.
    ///
    /// Fails with [`Error::CoefficientOverflow`] where the new coefficient
    /// leaves the range, and else with [`Error::ScalingOverflow`] where the new
    /// scaling factor exceeds [`MAX_SCALING`].
    pub fn try_upscale_by(self, amount: u8) -> (outcome: Result<Self, Error>)
        ensures
            match outcome {
                Ok(scaled) => self@.upscaled(amount as nat) == Ok::<DecimalView, ErrorView>(
                    scaled@,
                ),
                Err(error) => self@.upscaled(amount as nat) == Err::<DecimalView, ErrorView>(
                    error@,
                ),
            },
    {
        proof {
            use_type_invariant(self);
        }
        let mut new_coefficient: i32 = self.coefficient;
        let mut step: u8 = 0;
        proof {
            assert(pow10(0) == 1);
            assert(self.coefficient * 1 == self.coefficient);
        }
        while step < amount
            invariant
                step <= amount,
                new_coefficient == self.coefficient * pow10(step as nat),
            decreases amount - step,
        {
            proof {
                assert(pow10((step + 1) as nat) == 10 * pow10(step as nat));
                assert(self.coefficient * (10 * pow10(step as nat)) == (self.coefficient * pow10(
                    step as nat,
                )) * 10) by (nonlinear_arith);
            }
            match new_coefficient.checked_mul(10) {
                Some(x) => {
                    new_coefficient = x;
                },
                None => {
                    proof {
                        lemma_overflow_stays(
                            self.coefficient as int,
                            (step + 1) as nat,
                            amount as nat,
                        );
                    }
                    return Err(Error::CoefficientOverflow);
                },
            }
            step = step + 1;
        }
        if amount > MAX_SCALING - self.scaling {
            return Err(Error::ScalingOverflow);
        }
        Ok(Decimal { coefficient: new_coefficient, scaling: self.scaling + amount })
    }

    /// The nearest whole number to `c1 + c2 / (10 * p)`, where `c2` has one
    /// digit more than `p`: `c1`, or `c1 + 1` where the first digit of `c2` is
    /// five or more.
    fn round_half_up(c1: u32, c2: u32, p: u32) -> (rounded: u32)
        requires
            p > 0,
            c1 < u32::MAX,
        ensures
            rounded == (if c2 / p >= 5 {
                c1 + 1
            } else {
                c1 as int
            }),
    {
        if c2 / p >= 5 {
            c1 + 1
        } else {
            c1
        }
    }

    /// This number with `amount` fewer digits after the point, rounded as
    /// `rounding_mode` says. The number has `amount` digits after the point at
    /// least. Digits are lost: the result is the nearest number that the fewer
    /// digits can write.
    pub fn downscale_by(self, amount: u8, rounding_mode: &RoundingMode) -> (scaled: Self)
        requires
            amount <= self@.scaling,
        ensures
            scaled@ == self@.downscaled(amount as nat, *rounding_mode),
    {
        proof {
            use_type_invariant(self);
            lemma_pow10_values();
        }
        if amount == 0 {
            assert((2 * magnitude(self.coefficient as int) + 1) / 2 == magnitude(
                self.coefficient as int,
            ));
            return self;
        }
        let size: u32 = unsigned_abs(self.coefficient);
        let mut c1: u32 = size;
        let mut c2: u32 = 0;
        let mut p: u32 = 1;
        let mut next: u32 = 1;
        let mut t: u8 = 0;
        while t < amount
            invariant
                t <= amount <= 8,
                size <= 0x8000_0000,
                next == pow10(t as nat),
                t > 0 ==> p * 10 == next,
                c1 == size / next,
                c2 == size % next,
            decreases amount - t,
        {
            proof {
                lemma_pow10_values();
                lemma_pow10_monotonic((t + 1) as nat, 8);
                lemma_pow10_monotonic(t as nat, 7);
                lemma_div_pow10_step(size as nat, t as nat);
                lemma_breakdown(size as int, next as int, 10);
                assert(pow10((t + 1) as nat) == 10 * pow10(t as nat));
                assert(next * ((size / next) % 10) == (c1 % 10) * next) by (nonlinear_arith)
                    requires
                        c1 == size / next,
                ;
                assert((c1 % 10) * next <= 9 * next) by (nonlinear_arith)
                    requires
                        c1 % 10 <= 9,
                        next >= 0,
                ;
            }
            p = next;
            c2 = c2 + (c1 % 10) * p;
            c1 = c1 / 10;
            next = next * 10;
            t = t + 1;
        }
        let rounded: u32 = match rounding_mode {
            RoundingMode::HalfUp => Self::round_half_up(c1, c2, p),
        };
        proof {
            let unit = next as int;
            lemma_fundamental_div_mod(size as int, unit);
            assert((c2 / p >= 5) == (2 * c2 >= unit)) by (nonlinear_arith)
                requires
                    p > 0,
                    unit == p * 10,
            ;
            if 2 * c2 >= unit {
                assert(2 * size + unit == (c1 + 1) * (2 * unit) + (2 * c2 - unit))
                    by (nonlinear_arith)
                    requires
                        size == unit * c1 + c2,
                ;
                lemma_fundamental_div_mod_converse(
                    2 * size + unit,
                    2 * unit,
                    c1 + 1,
                    2 * c2 - unit,
                );
            } else {
                assert(2 * size + unit == c1 * (2 * unit) + (2 * c2 + unit)) by (nonlinear_arith)
                    requires
                        size == unit * c1 + c2,
                ;
                lemma_fundamental_div_mod_converse(
                    2 * size + unit,
                    2 * unit,
                    c1 as int,
                    2 * c2 + unit,
                );
            }
            assert(c1 <= size / 10) by {
                lemma_pow10_monotonic(1, amount as nat);
                lemma_div_is_ordered_by_denominator(size as int, 10, unit);
            }
        }
        let new_coefficient: i32 = if self.coefficient < 0 {
            -(rounded as i32)
        } else {
            rounded as i32
        };
        Decimal { coefficient: new_coefficient, scaling: self.scaling - amount }
    }
}

} // verus!
