//! Operations on vectors.

mod add;
pub mod dot;
mod eq;
mod idx;
mod neg;
mod scale;
