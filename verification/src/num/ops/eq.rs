//! Equality by value: two decimal numbers are equal where they stand for the
//! same number, whatever their scaling factors. `1234.56` and `1234.560` are
//! equal; `1200` and `12` are not.
//!
//! The numbers are compared, not their texts: texts with their trailing zeros
//! taken off would make `120` equal to `12`, and `0` different from `0.0`.

use crate::num::text::{pow10, lemma_pow10_monotonic, lemma_pow10_values};
use crate::num::{Decimal, DecimalView};
use vstd::prelude::*;
use vstd::std_specs::cmp::PartialEqSpecImpl;

verus! {

impl DecimalView {
    /// The two pairs stand for the same number: brought to a common scaling
    /// factor, their coefficients are equal.
    pub open spec fn same_value(self, other: DecimalView) -> bool {
        self.coefficient * pow10(other.scaling) == other.coefficient * pow10(self.scaling)
    }
}

/// Ten to the power `exponent`.
fn power_of_ten(exponent: u8) -> (power: i64)
    requires
        exponent <= 8,
    ensures
        power == pow10(exponent as nat),
        1 <= power <= 100_000_000,
{
    let mut power: i64 = 1;
    let mut step: u8 = 0;
    proof {
        lemma_pow10_values();
    }
    while step < exponent
        invariant
            step <= exponent <= 8,
            power == pow10(step as nat),
            1 <= power <= pow10(8) == 100_000_000,
        decreases exponent - step,
    {
        proof {
            lemma_pow10_monotonic((step + 1) as nat, 8);
        }
        power = power * 10;
        step = step + 1;
    }
    power
}

impl PartialEq for Decimal {
    /// Whether this number and `other` stand for the same number.
    fn eq(&self, other: &Self) -> (equal: bool) {
        proof {
            use_type_invariant(self);
            use_type_invariant(other);
        }
        let self_unit = power_of_ten(self.scaling);
        let other_unit = power_of_ten(other.scaling);
        proof {
            let a = self.coefficient as int;
            let b = other.coefficient as int;
            assert(-0x8000_0000 * 100_000_000 <= a * other_unit <= 0x8000_0000 * 100_000_000)
                by (nonlinear_arith)
                requires
                    -0x8000_0000 <= a <= 0x8000_0000,
                    1 <= other_unit <= 100_000_000,
            ;
            assert(-0x8000_0000 * 100_000_000 <= b * self_unit <= 0x8000_0000 * 100_000_000)
                by (nonlinear_arith)
                requires
                    -0x8000_0000 <= b <= 0x8000_0000,
                    1 <= self_unit <= 100_000_000,
            ;
        }
        (self.coefficient as i64) * other_unit == (other.coefficient as i64) * self_unit
    }
}

impl Eq for Decimal {

}

impl PartialEqSpecImpl for Decimal {
    open spec fn obeys_eq_spec() -> bool {
        true
    }

    open spec fn eq_spec(&self, other: &Decimal) -> bool {
        self@.same_value(other@)
    }
}

} // verus!
