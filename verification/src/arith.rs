use vstd::prelude::*;
use crate::error::MatrixError;
use crate::matrix::{grid_of, rectangular, Matrix};
use crate::scalar::Scalar;

verus! {

/// The grid of the entrywise sums of `a` and `b`.
pub open spec fn sum_grid<T: Scalar>(a: Seq<Seq<T>>, b: Seq<Seq<T>>) -> Seq<Seq<T>> {
    Seq::new(a.len(), |i: int| Seq::new(a[i].len(), |j: int| a[i][j].plus_spec(b[i][j])))
}

/// The grid of the entrywise differences of `a` and `b`.
pub open spec fn difference_grid<T: Scalar>(a: Seq<Seq<T>>, b: Seq<Seq<T>>) -> Seq<Seq<T>> {
    Seq::new(a.len(), |i: int| Seq::new(a[i].len(), |j: int| a[i][j].minus_spec(b[i][j])))
}

/// The first `upto` products of `row` with column `j` of `b`, added up from
/// zero in their order.
pub open spec fn row_by_column<T: Scalar>(row: Seq<T>, b: Seq<Seq<T>>, j: int, upto: nat) -> T
    decreases upto,
{
    if upto == 0 {
        T::zero_spec()
    } else {
        row_by_column(row, b, j, (upto - 1) as nat).plus_spec(
            row[upto - 1].times_spec(b[upto - 1][j]),
        )
    }
}

/// The product of `a` with `b`, where `b` has `cols` columns: the entry at
/// `(i, j)` is row `i` of `a` by column `j` of `b`.
pub open spec fn product_grid<T: Scalar>(a: Seq<Seq<T>>, b: Seq<Seq<T>>, cols: nat) -> Seq<
    Seq<T>,
> {
    Seq::new(
        a.len(),
        |i: int| Seq::new(cols, |j: int| row_by_column(a[i], b, j, a[i].len())),
    )
}

impl<T: Scalar> Matrix<T> {
    /// The entrywise sum of two matrices of one shape.
    pub fn add(&self, m: &Matrix<T>) -> (r: Result<Self, MatrixError>)
        ensures
            match r {
                Ok(sum) => {
                    &&& self.rows_spec() == m.rows_spec()
                    &&& self.cols_spec() == m.cols_spec()
                    &&& sum@ == sum_grid(self@, m@)
                    &&& sum.cols_spec() == self.cols_spec()
                },
                Err(e) => {
                    &&& e == MatrixError::DimensionMismatch
                    &&& (self.rows_spec() != m.rows_spec() || self.cols_spec() != m.cols_spec())
                },
            },
    {
        let rows = self.rows();
        let cols = self.cols();
        if rows != m.rows() || cols != m.cols() {
            return Err(MatrixError::DimensionMismatch);
        }
        let mut data: Vec<Vec<T>> = Vec::new();
        let mut i: usize = 0;
        while i < rows
            invariant
                i <= rows,
                rows == self.rows_spec(),
                rows == m.rows_spec(),
                cols == self.cols_spec(),
                cols == m.cols_spec(),
                rectangular(self@, cols as nat),
                rectangular(m@, cols as nat),
                data@.len() == i,
                forall|k: int| 0 <= k < i ==> (#[trigger] data@[k])@ == sum_grid(self@, m@)[k],
            decreases rows - i,
        {
            let mut row: Vec<T> = Vec::new();
            let mut j: usize = 0;
            while j < cols
                invariant
                    j <= cols,
                    i < rows,
                    rows == self.rows_spec(),
                    rows == m.rows_spec(),
                    cols == self.cols_spec(),
                    cols == m.cols_spec(),
                    self@[i as int].len() == cols,
                    row@.len() == j,
                    forall|k: int|
                        0 <= k < j ==> #[trigger] row@[k] == self@[i as int][k].plus_spec(
                            m@[i as int][k],
                        ),
                decreases cols - j,
            {
                row.push(self.entry(i, j).plus(m.entry(i, j)));
                j = j + 1;
            }
            assert(row@ =~= sum_grid(self@, m@)[i as int]);
            data.push(row);
            i = i + 1;
        }
        assert(grid_of(data@) =~= sum_grid(self@, m@));
        assert(rectangular(grid_of(data@), cols as nat));
        Ok(Matrix::from_parts(rows, cols, data))
    }

    /// The entrywise difference of two matrices of one shape.
    pub fn subtract(&self, m: &Matrix<T>) -> (r: Result<Self, MatrixError>)
        ensures
            match r {
                Ok(diff) => {
                    &&& self.rows_spec() == m.rows_spec()
                    &&& self.cols_spec() == m.cols_spec()
                    &&& diff@ == difference_grid(self@, m@)
                    &&& diff.cols_spec() == self.cols_spec()
                },
                Err(e) => {
                    &&& e == MatrixError::DimensionMismatch
                    &&& (self.rows_spec() != m.rows_spec() || self.cols_spec() != m.cols_spec())
                },
            },
    {
        let rows = self.rows();
        let cols = self.cols();
        if rows != m.rows() || cols != m.cols() {
            return Err(MatrixError::DimensionMismatch);
        }
        let mut data: Vec<Vec<T>> = Vec::new();
        let mut i: usize = 0;
        while i < rows
            invariant
                i <= rows,
                rows == self.rows_spec(),
                rows == m.rows_spec(),
                cols == self.cols_spec(),
                cols == m.cols_spec(),
                rectangular(self@, cols as nat),
                rectangular(m@, cols as nat),
                data@.len() == i,
                forall|k: int|
                    0 <= k < i ==> (#[trigger] data@[k])@ == difference_grid(self@, m@)[k],
            decreases rows - i,
        {
            let mut row: Vec<T> = Vec::new();
            let mut j: usize = 0;
            while j < cols
                invariant
                    j <= cols,
                    i < rows,
                    rows == self.rows_spec(),
                    rows == m.rows_spec(),
                    cols == self.cols_spec(),
                    cols == m.cols_spec(),
                    self@[i as int].len() == cols,
                    row@.len() == j,
                    forall|k: int|
                        0 <= k < j ==> #[trigger] row@[k] == self@[i as int][k].minus_spec(
                            m@[i as int][k],
                        ),
                decreases cols - j,
            {
                row.push(self.entry(i, j).minus(m.entry(i, j)));
                j = j + 1;
            }
            assert(row@ =~= difference_grid(self@, m@)[i as int]);
            data.push(row);
            i = i + 1;
        }
        assert(grid_of(data@) =~= difference_grid(self@, m@));
        assert(rectangular(grid_of(data@), cols as nat));
        Ok(Matrix::from_parts(rows, cols, data))
    }

    /// The matrix product of this matrix with `m`, which must have as many rows
    /// as this one has columns.
    pub fn dot(&self, m: &Matrix<T>) -> (r: Result<Self, MatrixError>)
        ensures
            match r {
                Ok(product) => {
                    &&& self.cols_spec() == m.rows_spec()
                    &&& product@ == product_grid(self@, m@, m.cols_spec())
                    &&& product.cols_spec() == m.cols_spec()
                },
                Err(e) => {
                    &&& e == MatrixError::DimensionMismatch
                    &&& self.cols_spec() != m.rows_spec()
                },
            },
    {
        let rows = self.rows();
        let inner = self.cols();
        let cols = m.cols();
        if inner != m.rows() {
            return Err(MatrixError::DimensionMismatch);
        }
        let mut data: Vec<Vec<T>> = Vec::new();
        let mut i: usize = 0;
        while i < rows
            invariant
                i <= rows,
                rows == self.rows_spec(),
                inner == self.cols_spec(),
                inner == m.rows_spec(),
                cols == m.cols_spec(),
                rectangular(self@, inner as nat),
                rectangular(m@, cols as nat),
                data@.len() == i,
                forall|k: int|
                    0 <= k < i ==> (#[trigger] data@[k])@ == product_grid(
                        self@,
                        m@,
                        cols as nat,
                    )[k],
            decreases rows - i,
        {
            let mut row: Vec<T> = Vec::new();
            let mut j: usize = 0;
            while j < cols
                invariant
                    j <= cols,
                    i < rows,
                    rows == self.rows_spec(),
                    inner == self.cols_spec(),
                    inner == m.rows_spec(),
                    cols == m.cols_spec(),
                    self@[i as int].len() == inner,
                    rectangular(m@, cols as nat),
                    row@.len() == j,
                    forall|k: int|
                        0 <= k < j ==> #[trigger] row@[k] == row_by_column(
                            self@[i as int],
                            m@,
                            k,
                            inner as nat,
                        ),
                decreases cols - j,
            {
                let mut sum = T::zero();
                let mut k: usize = 0;
                while k < inner
                    invariant
                        k <= inner,
                        i < rows,
                        j < cols,
                        rows == self.rows_spec(),
                        inner == self.cols_spec(),
                        inner == m.rows_spec(),
                        cols == m.cols_spec(),
                        sum == row_by_column(self@[i as int], m@, j as int, k as nat),
                    decreases inner - k,
                {
                    sum = sum.plus(self.entry(i, k).times(m.entry(k, j)));
                    k = k + 1;
                }
                row.push(sum);
                j = j + 1;
            }
            assert(row@ =~= product_grid(self@, m@, cols as nat)[i as int]);
            data.push(row);
            i = i + 1;
        }
        assert(grid_of(data@) =~= product_grid(self@, m@, cols as nat));
        assert(rectangular(grid_of(data@), cols as nat));
        Ok(Matrix::from_parts(rows, cols, data))
    }
}

} // verus!
