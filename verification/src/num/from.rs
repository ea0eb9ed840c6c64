//! Reading a decimal number from text.
//!
//! The text is an optional `+` or `-`, then digits with at most one `.` among
//! them: no exponent, no separators, no blanks. It is read in one pass from
//! left to right, and the first byte that breaks a rule decides the error.

use crate::num::text::{
    clean_before,
    fraction_len,
    is_negative,
    parsed,
    signed_value,
    DOT,
    MINUS,
    NINE,
    PLUS,
    ZERO,
    lemma_parsed_clean,
    lemma_parsed_fault,
    lemma_take_next,
};
use crate::num::{Decimal, DecimalView, Error, ErrorView, MAX_SCALING};
use vstd::prelude::*;
use vstd::string::StringSliceAdditionalSpecFns;

verus! {

impl Decimal {
    /// Reads a decimal number from the bytes of a text.
    ///
    /// A leading `+` is taken, as a leading `-` is. Only the bytes `0` to `9`
    /// count as digits.
    pub fn parse_bytes(bytes: &[u8]) -> (outcome: Result<Decimal, Error>)
        ensures
            match outcome {
                Ok(number) => parsed(bytes@) == Ok::<DecimalView, ErrorView>(number@),
                Err(error) => parsed(bytes@) == Err::<DecimalView, ErrorView>(error@),
            },
    {
        let len = bytes.len();
        if len == 0 {
            return Err(Error::BadFormat("Empty string"));
        }
        let mut accumulated_coefficient: i32 = 0;
        let mut accumulated_scaling: usize = 0;
        let mut minus_encountered = false;
        let mut dot_encountered = false;
        let mut i: usize = 0;
        while i < len
            invariant
                len == bytes@.len(),
                i <= len,
                clean_before(bytes@, i as int),
                accumulated_coefficient == signed_value(bytes@.take(i as int)),
                accumulated_scaling == fraction_len(bytes@.take(i as int)),
                accumulated_scaling <= i,
                dot_encountered == bytes@.take(i as int).contains(DOT),
                minus_encountered == (i > 0 && bytes@[0] == MINUS),
            decreases len - i,
        {
            let c = bytes[i];
            proof {
                lemma_take_next(bytes@, i as int);
                assert(is_negative(bytes@.take(i as int)) == minus_encountered);
            }
            if c == PLUS {
                if i > 0 {
                    proof {
                        lemma_parsed_fault(bytes@, i as int);
                    }
                    return Err(Error::BadFormat("Misplaced + (plus)"));
                }
            } else if c == MINUS {
                if i > 0 {
                    proof {
                        lemma_parsed_fault(bytes@, i as int);
                    }
                    return Err(Error::BadFormat("Misplaced - (minus)"));
                }
                minus_encountered = true;
            } else if c == DOT {
                if dot_encountered {
                    proof {
                        lemma_parsed_fault(bytes@, i as int);
                    }
                    return Err(Error::BadFormat("Double . (dot)"));
                }
                dot_encountered = true;
            } else if c >= ZERO && c <= NINE {
                let digit: i32 = (c - ZERO) as i32;
                let checked_coefficient = match accumulated_coefficient.checked_mul(10) {
                    Some(x) => if !minus_encountered {
                        x.checked_add(digit)
                    } else {
                        x.checked_sub(digit)
                    },
                    None => None,
                };
                match checked_coefficient {
                    Some(coefficient) => {
                        accumulated_coefficient = coefficient;
                        if dot_encountered {
                            accumulated_scaling = accumulated_scaling + 1;
                        }
                    },
                    None => {
                        proof {
                            lemma_parsed_fault(bytes@, i as int);
                        }
                        return Err(Error::CoefficientOverflow);
                    },
                }
            } else {
                proof {
                    lemma_parsed_fault(bytes@, i as int);
                }
                return Err(Error::BadFormat("Invalid character"));
            }
            i = i + 1;
        }
        proof {
            assert(bytes@.take(len as int) =~= bytes@);
            lemma_parsed_clean(bytes@);
        }
        if accumulated_scaling > MAX_SCALING as usize {
            return Err(Error::ScalingOverflow);
        }
        Ok(Decimal { coefficient: accumulated_coefficient, scaling: accumulated_scaling as u8 })
    }
}

impl std::str::FromStr for Decimal {
    type Err = Error;

    /// Reads a decimal number from a text: from its bytes, as
    /// [`Decimal::parse_bytes`] does.
    fn from_str(s: &str) -> (outcome: Result<Self, Self::Err>)
        ensures
            match outcome {
                Ok(number) => parsed(s.spec_bytes()) == Ok::<DecimalView, ErrorView>(number@),
                Err(error) => parsed(s.spec_bytes()) == Err::<DecimalView, ErrorView>(error@),
            },
    {
        Decimal::parse_bytes(s.as_bytes())
    }
}

impl From<i32> for Decimal {
    /// The whole number `value`, with no digits after the point.
    fn from(value: i32) -> (number: Self)
        ensures
            number@ == (DecimalView { coefficient: value as int, scaling: 0 }),
    {
        Decimal { coefficient: value, scaling: 0 }
    }
}

impl vstd::std_specs::convert::FromSpecImpl<i32> for Decimal {
    open spec fn obeys_from_spec() -> bool {
        true
    }

    open spec fn from_spec(value: i32) -> Self {
        Decimal::whole(value)
    }
}

impl Decimal {
    /// The decimal number that holds the whole number `value`.
    pub closed spec fn whole(value: i32) -> Decimal {
        Decimal { coefficient: value, scaling: 0 }
    }

    /// The whole number `value` is the coefficient `value` with no scaling.
    pub broadcast proof fn lemma_whole(value: i32)
        ensures
            (#[trigger] Decimal::whole(value))@ == (DecimalView {
                coefficient: value as int,
                scaling: 0,
            }),
    {
    }
}

} // verus!
