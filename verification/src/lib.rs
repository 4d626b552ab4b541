//! Dense rectangular matrices over an arbitrary scalar, with the classical
//! operations on them: entrywise arithmetic, the matrix product, transposition,
//! row reduction, the determinant by cofactor expansion and the inverse by the
//! adjugate.
//!
//! Every operation is stated over the scalar's own arithmetic, so that what is
//! proved here holds for whichever number type a matrix is filled with.

pub mod arith;
pub mod decimal;
pub mod det;
pub mod error;
pub mod inverse;
pub mod laws;
pub mod matrix;
pub mod modular;
pub mod reduce;
pub mod render;
pub mod scalar;
pub mod text;

pub use crate::error::MatrixError;
pub use crate::matrix::Matrix;
pub use crate::modular::Modular;
pub use crate::scalar::Scalar;
