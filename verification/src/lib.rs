//! Solving systems of linear equations over a field-like scalar type.
//!
//! An augmented coefficient matrix is reduced in place to a canonical
//! (strict) row-echelon form, and the solution set is classified as empty,
//! unique, or an affine family described by an offset vector and a
//! parameter matrix.

pub mod field;
pub mod linear_equations;
pub mod matrix;
pub mod matrix_multiplication;
