//! Dense two-dimensional arrays with a small linear-algebra toolkit,
//! every operation carrying a machine-checked contract.

pub mod array2d;
pub mod scalar;
pub mod vector_functions;
