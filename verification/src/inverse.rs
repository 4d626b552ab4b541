use vstd::prelude::*;
use crate::det::{cofactor, determinant};
use crate::error::MatrixError;
use crate::matrix::{grid_of, rectangular, transposed, Matrix};
use crate::reduce::{settle_rows, settled_grid};
use crate::scalar::Scalar;

verus! {

/// The grid of the cofactors of a square grid.
pub open spec fn cofactor_grid<T: Scalar>(cells: Seq<Seq<T>>) -> Seq<Seq<T>> {
    Seq::new(cells.len(), |i: int| Seq::new(cells.len(), |j: int| cofactor(cells, i, j)))
}

/// The grid with every entry divided by `d`.
pub open spec fn divided_grid<T: Scalar>(cells: Seq<Seq<T>>, d: T) -> Seq<Seq<T>> {
    Seq::new(cells.len(), |i: int| Seq::new(cells[i].len(), |j: int| cells[i][j].over_spec(d)))
}

/// The inverse of a square grid by the adjugate: the cofactors with the noise
/// taken off, transposed, and divided by the determinant.
pub open spec fn inverse_grid<T: Scalar>(cells: Seq<Seq<T>>) -> Seq<Seq<T>> {
    divided_grid(
        transposed(settled_grid(cofactor_grid(cells)), cells.len()),
        determinant(cells),
    )
}

impl<T: Scalar> Matrix<T> {
    /// The inverse of a square matrix whose determinant is not zero.
    pub fn inverse(&self) -> (r: Result<Self, MatrixError>)
        ensures
            self.rows_spec() != self.cols_spec() ==> r is Err && r->Err_0
                == MatrixError::NotSquare,
            self.rows_spec() == self.cols_spec() && determinant(self@).same_spec(T::zero_spec())
                ==> r is Err && r->Err_0 == MatrixError::Singular,
            self.rows_spec() == self.cols_spec() && !determinant(self@).same_spec(
                T::zero_spec(),
            ) ==> r is Ok && r->Ok_0@ == inverse_grid(self@) && r->Ok_0.cols_spec()
                == self.cols_spec(),
    {
        let n = self.rows();
        let d = match self.det() {
            Err(e) => {
                return Err(e);
            },
            Ok(d) => d,
        };
        if d.same(T::zero()) {
            return Err(MatrixError::Singular);
        }
        let mut data: Vec<Vec<T>> = Vec::new();
        let mut row: usize = 0;
        while row < n
            invariant
                row <= n,
                n == self.rows_spec(),
                n == self.cols_spec(),
                data@.len() == row,
                forall|k: int| 0 <= k < row ==> (#[trigger] data@[k])@ == cofactor_grid(self@)[k],
            decreases n - row,
        {
            let mut line: Vec<T> = Vec::new();
            let mut col: usize = 0;
            while col < n
                invariant
                    col <= n,
                    row < n,
                    n == self.rows_spec(),
                    n == self.cols_spec(),
                    line@.len() == col,
                    forall|k: int|
                        0 <= k < col ==> #[trigger] line@[k] == cofactor(self@, row as int, k),
                decreases n - col,
            {
                match self.cofactor(row, col) {
                    Err(e) => {
                        return Err(e);
                    },
                    Ok(c) => {
                        line.push(c);
                    },
                }
                col = col + 1;
            }
            assert(line@ =~= cofactor_grid(self@)[row as int]);
            data.push(line);
            row = row + 1;
        }
        assert(grid_of(data@) =~= cofactor_grid(self@));
        settle_rows(&mut data);
        assert(rectangular(grid_of(data@), n as nat)) by {
            assert forall|i: int| 0 <= i < grid_of(data@).len() implies (#[trigger] grid_of(
                data@,
            )[i]).len() == n by {
                assert(settled_grid(cofactor_grid(self@))[i].len() == cofactor_grid(
                    self@,
                )[i].len());
            }
        }
        let adjugate = Matrix::from_parts(n, n, data).transpose();
        let mut scaled = adjugate.to_rows();
        let mut i: usize = 0;
        while i < n
            invariant
                i <= n,
                scaled@.len() == n,
                adjugate@.len() == n,
                rectangular(adjugate@, n as nat),
                forall|k: int|
                    0 <= k < i ==> (#[trigger] scaled@[k])@ == divided_grid(adjugate@, d)[k],
                forall|k: int| i <= k < n ==> (#[trigger] scaled@[k])@ == adjugate@[k],
            decreases n - i,
        {
            let mut line: Vec<T> = Vec::new();
            let mut j: usize = 0;
            assert(adjugate@[i as int].len() == n);
            while j < n
                invariant
                    j <= n,
                    i < n,
                    scaled@.len() == n,
                    scaled@[i as int]@ == adjugate@[i as int],
                    adjugate@[i as int].len() == n,
                    line@.len() == j,
                    forall|k: int|
                        0 <= k < j ==> #[trigger] line@[k] == adjugate@[i as int][k].over_spec(d),
                decreases n - j,
            {
                line.push(scaled[i][j].over(d));
                j = j + 1;
            }
            assert(line@ =~= divided_grid(adjugate@, d)[i as int]);
            scaled.set(i, line);
            i = i + 1;
        }
        assert(grid_of(scaled@) =~= divided_grid(adjugate@, d));
        assert(rectangular(grid_of(scaled@), n as nat));
        Ok(Matrix::from_parts(n, n, scaled))
    }
}

} // verus!
