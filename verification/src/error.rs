use vstd::prelude::*;

verus! {

/// Why an operation on a matrix could not be carried out.
#[derive(Clone, Copy, Debug, PartialEq, Eq, Structural)]
pub enum MatrixError {
    /// The shapes of the operands do not fit the operation.
    DimensionMismatch,
    /// The operation is defined for square matrices only.
    NotSquare,
    /// The determinant is zero, so there is no inverse.
    Singular,
    /// A token is not a number, or the rows differ in length.
    Parse,
    /// Row reduction met a zero on the diagonal where it needs a pivot.
    ZeroPivot,
    /// A row or column index lies outside the matrix.
    OutOfBounds,
}

} // verus!
