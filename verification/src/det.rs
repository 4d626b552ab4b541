use vstd::prelude::*;
use crate::error::MatrixError;
use crate::matrix::{rectangular, Matrix};
use crate::scalar::Scalar;

verus! {

/// `cells` without row `row` and without column `col`.
pub open spec fn minor<T>(cells: Seq<Seq<T>>, row: int, col: int) -> Seq<Seq<T>> {
    Seq::new(
        (cells.len() - 1) as nat,
        |i: int|
            {
                let from = if i < row {
                    cells[i]
                } else {
                    cells[i + 1]
                };
                Seq::new(
                    (from.len() - 1) as nat,
                    |j: int|
                        if j < col {
                            from[j]
                        } else {
                            from[j + 1]
                        },
                )
            },
    )
}

/// One where `k` is even, zero minus one where it is odd.
pub open spec fn sign<T: Scalar>(k: int) -> T {
    if k % 2 == 0 {
        T::one_spec()
    } else {
        T::zero_spec().minus_spec(T::one_spec())
    }
}

/// The determinant of a square grid: one for the empty grid, the entry of a
/// grid of one, `ad - bc` for a grid of two, and beyond that the expansion
/// along the second row.
pub open spec fn determinant<T: Scalar>(cells: Seq<Seq<T>>) -> T
    decreases cells.len(), 2nat, 0nat,
{
    if cells.len() == 0 {
        T::one_spec()
    } else if cells.len() == 1 {
        cells[0][0]
    } else if cells.len() == 2 {
        cells[0][0].times_spec(cells[1][1]).minus_spec(cells[0][1].times_spec(cells[1][0]))
    } else {
        expansion(cells, cells.len())
    }
}

/// The first `upto` terms of the expansion along the second row, added up from
/// zero in the order of the columns.
pub open spec fn expansion<T: Scalar>(cells: Seq<Seq<T>>, upto: nat) -> T
    decreases cells.len(), 1nat, upto,
{
    if upto == 0 {
        T::zero_spec()
    } else {
        expansion(cells, (upto - 1) as nat).plus_spec(
            cofactor(cells, 1, upto - 1).times_spec(cells[1][upto - 1]),
        )
    }
}

/// The determinant of the minor at `row` and `col`, times the sign of the
/// place.
pub open spec fn cofactor<T: Scalar>(cells: Seq<Seq<T>>, row: int, col: int) -> T
    decreases cells.len(), 0nat, 0nat,
{
    if cells.len() > 0 {
        determinant(minor(cells, row, col)).times_spec(sign(row + col))
    } else {
        T::zero_spec()
    }
}

impl<T: Scalar> Matrix<T> {
    /// The matrix that is left when row `row` and column `col` are deleted.
    pub fn minor(&self, row: usize, col: usize) -> (r: Result<Self, MatrixError>)
        ensures
            match r {
                Ok(m) => {
                    &&& row < self.rows_spec()
                    &&& col < self.cols_spec()
                    &&& m@ == minor(self@, row as int, col as int)
                    &&& m.cols_spec() == self.cols_spec() - 1
                },
                Err(e) => {
                    &&& e == MatrixError::OutOfBounds
                    &&& row >= self.rows_spec() || col >= self.cols_spec()
                },
            },
    {
        let rows = self.rows();
        let cols = self.cols();
        if row >= rows || col >= cols {
            return Err(MatrixError::OutOfBounds);
        }
        let mut cut: Vec<Vec<T>> = Vec::new();
        let mut r: usize = 0;
        while r < rows
            invariant
                r <= rows,
                row < rows,
                col < cols,
                rows == self@.len(),
                cols == self.cols_spec(),
                rectangular(self@, cols as nat),
                cut@.len() == if r <= row {
                    r as int
                } else {
                    r - 1
                },
                forall|i: int|
                    0 <= i < cut@.len() ==> (#[trigger] cut@[i])@ == minor(
                        self@,
                        row as int,
                        col as int,
                    )[i],
            decreases rows - r,
        {
            if r != row {
                let mut v: Vec<T> = Vec::new();
                let mut c: usize = 0;
                while c < cols
                    invariant
                        c <= cols,
                        col < cols,
                        r < rows,
                        rows == self@.len(),
                        cols == self.cols_spec(),
                        self@[r as int].len() == cols,
                        v@.len() == if c <= col {
                            c as int
                        } else {
                            c - 1
                        },
                        forall|j: int|
                            0 <= j < v@.len() ==> #[trigger] v@[j] == if j < col {
                                self@[r as int][j]
                            } else {
                                self@[r as int][j + 1]
                            },
                    decreases cols - c,
                {
                    if c != col {
                        v.push(self.entry(r, c));
                    }
                    c = c + 1;
                }
                assert(v@ =~= minor(self@, row as int, col as int)[cut@.len() as int]);
                cut.push(v);
            }
            r = r + 1;
        }
        let m = Matrix::from_parts(rows - 1, cols - 1, cut);
        assert(m@ =~= minor(self@, row as int, col as int));
        Ok(m)
    }

    /// The cofactor at `row` and `col`: the determinant of the minor there,
    /// with the sign of the place.
    pub fn cofactor(&self, row: usize, col: usize) -> (r: Result<T, MatrixError>)
        ensures
            self.rows_spec() != self.cols_spec() ==> r == Err::<T, MatrixError>(
                MatrixError::NotSquare,
            ),
            self.rows_spec() == self.cols_spec() && (row >= self.rows_spec() || col
                >= self.cols_spec()) ==> r == Err::<T, MatrixError>(MatrixError::OutOfBounds),
            self.rows_spec() == self.cols_spec() && row < self.rows_spec() && col
                < self.cols_spec() ==> r == Ok::<T, MatrixError>(
                cofactor(self@, row as int, col as int),
            ),
        decreases self@.len(), 0nat,
    {
        if self.rows() != self.cols() {
            return Err(MatrixError::NotSquare);
        }
        match self.minor(row, col) {
            Err(e) => Err(e),
            Ok(cut) => {
                match cut.det() {
                    Err(e) => Err(e),
                    Ok(d) => {
                        let s = if row % 2 == col % 2 {
                            T::one()
                        } else {
                            T::zero().minus(T::one())
                        };
                        assert((row % 2 == col % 2) <==> (row as int + col as int) % 2 == 0);
                        Ok(d.times(s))
                    },
                }
            },
        }
    }

    /// The determinant of a square matrix.
    pub fn det(&self) -> (r: Result<T, MatrixError>)
        ensures
            r == if self.rows_spec() == self.cols_spec() {
                Ok::<T, MatrixError>(determinant(self@))
            } else {
                Err::<T, MatrixError>(MatrixError::NotSquare)
            },
        decreases self@.len(), 1nat,
    {
        let n = self.rows();
        if n != self.cols() {
            return Err(MatrixError::NotSquare);
        }
        if n == 0 {
            Ok(T::one())
        } else if n == 1 {
            Ok(self.entry(0, 0))
        } else if n == 2 {
            let main = self.entry(0, 0).times(self.entry(1, 1));
            let anti = self.entry(0, 1).times(self.entry(1, 0));
            Ok(main.minus(anti))
        } else {
            let mut sum = T::zero();
            let mut j: usize = 0;
            while j < n
                invariant
                    j <= n,
                    n >= 3,
                    n == self@.len(),
                    n == self.cols_spec(),
                    rectangular(self@, n as nat),
                    sum == expansion(self@, j as nat),
                decreases n - j,
            {
                match self.cofactor(1, j) {
                    Err(e) => {
                        return Err(e);
                    },
                    Ok(c) => {
                        sum = sum.plus(c.times(self.entry(1, j)));
                    },
                }
                j = j + 1;
            }
            Ok(sum)
        }
    }
}

} // verus!
