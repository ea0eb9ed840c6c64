//! Operations on matrices.

mod idx;
