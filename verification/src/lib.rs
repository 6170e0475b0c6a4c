//! Tools for solving homogeneous linear systems over GF(2), the field with
//! two elements, together with a helper for tallying factor lists.
//!
//! The intended use is extracting a nonzero kernel vector from a matrix of
//! exponent parities that has been brought into row-echelon form: the kernel
//! vector selects a subset of rows whose product is a perfect square.

pub mod elimination;
pub mod merge;
pub mod z2;
