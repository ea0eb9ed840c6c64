//! Fixed-point decimal numbers and small linear-algebra containers.

pub mod linalg;
pub mod macros;
pub mod num;
