//! Decimal numbers in fixed-point arithmetic.
//!
//! A decimal number is a signed coefficient together with a scaling factor:
//! it stands for `coefficient * 10^(-scaling)`. The number `1234.56` is the
//! coefficient `123456` with the scaling factor `2`.
//!
//! Decimal numbers are small values with copy semantics. No operation changes
//! a number in place: each one hands back a new number.

use vstd::pervasive::unreached;
use vstd::prelude::*;

pub mod laws;

pub mod text;

pub(crate) mod display;

mod from;

mod ops;

mod scaling;

verus! {

/// The largest coefficient a decimal number may carry.
pub const MAX_COEFFICIENT: i32 = i32::MAX;

/// The smallest coefficient a decimal number may carry.
pub const MIN_COEFFICIENT: i32 = i32::MIN;

/// The largest scaling factor a decimal number may carry.
pub const MAX_SCALING: u8 = 8;

/// The smallest scaling factor a decimal number may carry.
pub const MIN_SCALING: u8 = 0;

/// The largest number of digits a coefficient can have.
pub const MAX_PRECISION: u8 = 10;

/// What a decimal number holds, as mathematical integers.
pub struct DecimalView {
    pub coefficient: int,
    pub scaling: nat,
}

impl DecimalView {
    /// The pair is one that a `Decimal` can hold.
    pub open spec fn representable(self) -> bool {
        &&& MIN_COEFFICIENT <= self.coefficient <= MAX_COEFFICIENT
        &&& self.scaling <= MAX_SCALING
    }
}

/// A decimal number in fixed-point arithmetic.
#[derive(Debug, Clone, Copy)]
pub struct Decimal {
    coefficient: i32,
    scaling: u8,
}

impl View for Decimal {
    type V = DecimalView;

    closed spec fn view(&self) -> DecimalView {
        DecimalView { coefficient: self.coefficient as int, scaling: self.scaling as nat }
    }
}

/// Why a decimal number could not be made.
#[derive(Debug)]
pub enum Error {
    /// The text is not a decimal number; the message names the rule it breaks.
    BadFormat(&'static str),
    /// The scaling factor exceeds [`MAX_SCALING`].
    ScalingOverflow,
    /// The coefficient leaves the range from [`MIN_COEFFICIENT`] to [`MAX_COEFFICIENT`].
    CoefficientOverflow,
}

/// An [`Error`] with its message as a sequence of characters.
pub enum ErrorView {
    BadFormat(Seq<char>),
    ScalingOverflow,
    CoefficientOverflow,
}

impl View for Error {
    type V = ErrorView;

    open spec fn view(&self) -> ErrorView {
        match *self {
            Error::BadFormat(message) => ErrorView::BadFormat(message@),
            Error::ScalingOverflow => ErrorView::ScalingOverflow,
            Error::CoefficientOverflow => ErrorView::CoefficientOverflow,
        }
    }
}

impl ErrorView {
    /// The sentence that describes the error.
    pub open spec fn message(self) -> Seq<char> {
        match self {
            ErrorView::BadFormat(message) => message,
            ErrorView::ScalingOverflow => "Scaling overflow"@,
            ErrorView::CoefficientOverflow => "Coefficient overflow"@,
        }
    }
}

impl Error {
    /// The sentence that describes the error.
    pub fn to_string(&self) -> (message: String)
        ensures
            message@ == self@.message(),
    {
        match *self {
            Error::BadFormat(message) => message.to_owned(),
            Error::ScalingOverflow => "Scaling overflow".to_owned(),
            Error::CoefficientOverflow => "Coefficient overflow".to_owned(),
        }
    }
}

/// How a number is rounded when digits are dropped.
#[derive(Debug, Clone, Copy)]
pub enum RoundingMode {
    /// To the nearest neighbour; where both are equally near, away from zero.
    HalfUp,
}

impl Decimal {
    #[verifier::type_invariant]
    spec fn within_scale(self) -> bool {
        self.scaling <= MAX_SCALING
    }

    /// The decimal number `coefficient * 10^(-scaling)`, for a scaling factor
    /// that is known to be in range.
    pub fn new(coefficient: i32, scaling: u8) -> (number: Self)
        requires
            scaling <= MAX_SCALING,
        ensures
            number@ == (DecimalView { coefficient: coefficient as int, scaling: scaling as nat }),
    {
        match Self::try_new(coefficient, scaling) {
            Ok(number) => number,
            Err(_) => unreached(),
        }
    }

    /// The decimal number `coefficient * 10^(-scaling)`, or
    /// [`Error::ScalingOverflow`] where the scaling factor exceeds
    /// [`MAX_SCALING`]. The pair is kept as given: trailing zeros stay.
    pub fn try_new(coefficient: i32, scaling: u8) -> (made: Result<Self, Error>)
        ensures
            match made {
                Ok(number) => scaling <= MAX_SCALING && number@ == (DecimalView {
                    coefficient: coefficient as int,
                    scaling: scaling as nat,
                }),
                Err(error) => scaling > MAX_SCALING && error@ == ErrorView::ScalingOverflow,
            },
    {
        if scaling > MAX_SCALING {
            return Err(Error::ScalingOverflow);
        }
        Ok(Decimal { coefficient, scaling })
    }

    /// The coefficient of this number.
    pub fn coefficient(&self) -> (coefficient: i32)
        ensures
            coefficient == self@.coefficient,
    {
        self.coefficient
    }

    /// The scaling factor of this number.
    pub fn scaling(&self) -> (scaling: u8)
        ensures
            scaling == self@.scaling,
            scaling <= MAX_SCALING,
            self@.representable(),
    {
        proof {
            use_type_invariant(self);
        }
        self.scaling
    }
}

} // verus!
