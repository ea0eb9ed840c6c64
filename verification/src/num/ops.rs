//! Operations on decimal numbers: equality and negation.

mod eq;
mod neg;
