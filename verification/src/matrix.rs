use vstd::prelude::*;
use crate::error::MatrixError;
use crate::scalar::Scalar;

verus! {

/// Every row of `cells` has `cols` entries.
pub open spec fn rectangular<T>(cells: Seq<Seq<T>>, cols: nat) -> bool {
    forall|i: int| 0 <= i < cells.len() ==> (#[trigger] cells[i]).len() == cols
}

/// The `rows` by `cols` grid whose every entry is `fill`.
pub open spec fn uniform<T>(rows: nat, cols: nat, fill: T) -> Seq<Seq<T>> {
    Seq::new(rows, |i: int| Seq::new(cols, |j: int| fill))
}

/// The grid with `cols` rows whose row `j` is column `j` of `cells`.
pub open spec fn transposed<T>(cells: Seq<Seq<T>>, cols: nat) -> Seq<Seq<T>> {
    Seq::new(cols, |j: int| Seq::new(cells.len(), |i: int| cells[i][j]))
}

/// `cells` with a one written at each place of the diagonal.
pub open spec fn with_unit_diagonal<T: Scalar>(cells: Seq<Seq<T>>) -> Seq<Seq<T>> {
    Seq::new(cells.len(), |i: int| cells[i].update(i, T::one_spec()))
}

/// The identity of size `n`: a zero grid with a unit diagonal.
pub open spec fn identity_grid<T: Scalar>(n: nat) -> Seq<Seq<T>> {
    with_unit_diagonal(uniform(n, n, T::zero_spec()))
}

/// A copy of `row`.
pub fn copy_row<T: Copy>(row: &Vec<T>) -> (r: Vec<T>)
    ensures
        r@ == row@,
{
    let mut r: Vec<T> = Vec::new();
    let mut j: usize = 0;
    while j < row.len()
        invariant
            j <= row@.len(),
            r@ == row@.take(j as int),
        decreases row@.len() - j,
    {
        r.push(row[j]);
        assert(r@ =~= row@.take(j + 1));
        j = j + 1;
    }
    assert(row@.take(row@.len() as int) =~= row@);
    r
}

/// A copy of `data`, row by row.
pub fn copy_rows<T: Copy>(data: &Vec<Vec<T>>) -> (r: Vec<Vec<T>>)
    ensures
        grid_of(r@) == grid_of(data@),
{
    let mut r: Vec<Vec<T>> = Vec::new();
    let mut i: usize = 0;
    while i < data.len()
        invariant
            i <= data@.len(),
            r@.len() == i,
            forall|k: int| 0 <= k < i ==> (#[trigger] r@[k])@ == data@[k]@,
        decreases data@.len() - i,
    {
        r.push(copy_row(&data[i]));
        i = i + 1;
    }
    assert(grid_of(r@) =~= grid_of(data@));
    r
}

/// A dense matrix: `rows` rows of `cols` scalars each.
#[derive(Debug)]
pub struct Matrix<T: Scalar> {
    rows: usize,
    cols: usize,
    data: Vec<Vec<T>>,
}

/// The rows of a vector of vectors, each as a sequence.
pub open spec fn grid_of<T>(data: Seq<Vec<T>>) -> Seq<Seq<T>> {
    Seq::new(data.len(), |i: int| data[i]@)
}

impl<T: Scalar> Matrix<T> {
    #[verifier::type_invariant]
    spec fn well_formed(self) -> bool {
        &&& self.data@.len() == self.rows
        &&& forall|i: int|
            0 <= i < self.data@.len() ==> (#[trigger] self.data@[i])@.len() == self.cols
    }

    /// The entries, row by row.
    pub closed spec fn view(self) -> Seq<Seq<T>> {
        grid_of(self.data@)
    }

    /// The number of columns; a matrix without rows still has one.
    pub closed spec fn cols_spec(self) -> nat {
        self.cols as nat
    }

    /// The number of rows.
    pub open spec fn rows_spec(self) -> nat {
        self@.len()
    }

    /// Whether `other` has the same shape and the same entries.
    pub open spec fn agrees(self, other: Self) -> bool {
        self@ == other@ && self.cols_spec() == other.cols_spec()
    }

    /// The matrix of the given shape whose every entry is zero.
    pub fn new(rows: usize, cols: usize) -> (m: Self)
        ensures
            m@ == uniform(rows as nat, cols as nat, T::zero_spec()),
            m.cols_spec() == cols,
    {
        let mut data: Vec<Vec<T>> = Vec::new();
        let mut i: usize = 0;
        while i < rows
            invariant
                i <= rows,
                data@.len() == i,
                forall|k: int|
                    0 <= k < i ==> (#[trigger] data@[k])@ == Seq::new(
                        cols as nat,
                        |j: int| T::zero_spec(),
                    ),
            decreases rows - i,
        {
            let mut row: Vec<T> = Vec::new();
            let mut j: usize = 0;
            while j < cols
                invariant
                    j <= cols,
                    row@.len() == j,
                    forall|k: int| 0 <= k < j ==> #[trigger] row@[k] == T::zero_spec(),
                decreases cols - j,
            {
                row.push(T::zero());
                j = j + 1;
            }
            assert(row@ =~= Seq::new(cols as nat, |j: int| T::zero_spec()));
            data.push(row);
            i = i + 1;
        }
        let m = Matrix { rows, cols, data };
        assert(m@ =~= uniform(rows as nat, cols as nat, T::zero_spec()));
        m
    }

    /// Puts a matrix together from rows that are known to fit the shape.
    pub(crate) fn from_parts(rows: usize, cols: usize, data: Vec<Vec<T>>) -> (m: Self)
        requires
            data@.len() == rows,
            rectangular(grid_of(data@), cols as nat),
        ensures
            m@ == grid_of(data@),
            m.cols_spec() == cols,
    {
        assert forall|i: int| 0 <= i < data@.len() implies (#[trigger] data@[i])@.len()
            == cols by {
            assert(grid_of(data@)[i].len() == cols);
        }
        Matrix { rows, cols, data }
    }

    /// The entry in row `r` and column `c` of a matrix that has one there.
    pub(crate) fn entry(&self, r: usize, c: usize) -> (x: T)
        requires
            r < self.rows_spec(),
            c < self.cols_spec(),
        ensures
            x == self@[r as int][c as int],
    {
        proof {
            use_type_invariant(self);
        }
        self.data[r][c]
    }

    /// The number of rows.
    pub fn rows(&self) -> (n: usize)
        ensures
            n == self.rows_spec(),
            rectangular(self@, self.cols_spec()),
    {
        proof {
            use_type_invariant(self);
        }
        self.rows
    }

    /// The number of columns.
    pub fn cols(&self) -> (n: usize)
        ensures
            n == self.cols_spec(),
            rectangular(self@, self.cols_spec()),
    {
        proof {
            use_type_invariant(self);
        }
        self.cols
    }

    /// Replaces the entries by `data`, which has the shape of the matrix.
    pub(crate) fn put(&mut self, data: Vec<Vec<T>>)
        requires
            data@.len() == old(self).rows_spec(),
            rectangular(grid_of(data@), old(self).cols_spec()),
        ensures
            final(self)@ == grid_of(data@),
            final(self).cols_spec() == old(self).cols_spec(),
    {
        proof {
            use_type_invariant(&*self);
        }
        assert forall|i: int| 0 <= i < data@.len() implies (#[trigger] data@[i])@.len()
            == self.cols by {
            assert(grid_of(data@)[i].len() == self.cols);
        }
        self.data = data;
    }

    /// The matrix whose rows are `data`. Its number of columns is the length of
    /// the first row, and zero where there is no row. Rows of differing length
    /// are refused.
    pub fn from_rows(data: Vec<Vec<T>>) -> (r: Result<Self, MatrixError>)
        ensures
            match r {
                Ok(m) => {
                    &&& m@ == grid_of(data@)
                    &&& rectangular(m@, m.cols_spec())
                    &&& m.cols_spec() == if data@.len() == 0 {
                        0
                    } else {
                        data@[0]@.len()
                    }
                },
                Err(e) => {
                    &&& e == MatrixError::Parse
                    &&& exists|i: int|
                        0 <= i < data@.len() && (#[trigger] data@[i])@.len() != data@[0]@.len()
                },
            },
    {
        let rows = data.len();
        let cols = if rows == 0 {
            0
        } else {
            data[0].len()
        };
        let mut i: usize = 0;
        while i < rows
            invariant
                i <= rows,
                rows == data@.len(),
                rows > 0 ==> cols == data@[0]@.len(),
                forall|k: int| 0 <= k < i ==> (#[trigger] data@[k])@.len() == cols,
            decreases rows - i,
        {
            if data[i].len() != cols {
                return Err(MatrixError::Parse);
            }
            i = i + 1;
        }
        let m = Matrix { rows, cols, data };
        assert(rectangular(m@, cols as nat));
        Ok(m)
    }

    /// The entries, row by row, in vectors of their own.
    pub fn to_rows(&self) -> (data: Vec<Vec<T>>)
        ensures
            grid_of(data@) == self@,
            data@.len() == self.rows_spec(),
            rectangular(self@, self.cols_spec()),
    {
        proof {
            use_type_invariant(self);
        }
        let data = copy_rows(&self.data);
        assert(grid_of(data@).len() == data@.len());
        data
    }

    /// A matrix of the same shape with the same entries, in storage of its own.
    pub fn copy(&self) -> (m: Self)
        ensures
            m.agrees(*self),
    {
        proof {
            use_type_invariant(self);
        }
        let data = copy_rows(&self.data);
        assert(grid_of(data@).len() == data@.len());
        Matrix::from_parts(self.rows, self.cols, data)
    }

    /// The matrix with `cols` rows and `rows` columns whose entry at `(j, i)`
    /// is the entry of this one at `(i, j)`.
    pub fn transpose(&self) -> (t: Self)
        ensures
            t@ == transposed(self@, self.cols_spec()),
            t.cols_spec() == self.rows_spec(),
    {
        proof {
            use_type_invariant(self);
        }
        let mut data: Vec<Vec<T>> = Vec::new();
        let mut j: usize = 0;
        while j < self.cols
            invariant
                j <= self.cols,
                self.well_formed(),
                data@.len() == j,
                forall|k: int|
                    0 <= k < j ==> (#[trigger] data@[k])@ == Seq::new(
                        self@.len(),
                        |i: int| self@[i][k],
                    ),
            decreases self.cols - j,
        {
            let mut row: Vec<T> = Vec::new();
            let mut i: usize = 0;
            while i < self.rows
                invariant
                    i <= self.rows,
                    j < self.cols,
                    self.well_formed(),
                    row@.len() == i,
                    forall|k: int| 0 <= k < i ==> #[trigger] row@[k] == self@[k][j as int],
                decreases self.rows - i,
            {
                row.push(self.data[i][j]);
                i = i + 1;
            }
            assert(row@ =~= Seq::new(self@.len(), |i: int| self@[i][j as int]));
            data.push(row);
            j = j + 1;
        }
        assert(grid_of(data@) =~= transposed(self@, self.cols as nat));
        Matrix::from_parts(self.cols, self.rows, data)
    }

    /// Writes a one at each place of the diagonal of a square matrix and leaves
    /// the other entries as they are.
    pub fn identity(&mut self) -> (r: Result<(), MatrixError>)
        ensures
            final(self).cols_spec() == old(self).cols_spec(),
            match r {
                Ok(_) => {
                    &&& old(self).rows_spec() == old(self).cols_spec()
                    &&& final(self)@ == with_unit_diagonal(old(self)@)
                },
                Err(e) => {
                    &&& e == MatrixError::NotSquare
                    &&& old(self).rows_spec() != old(self).cols_spec()
                    &&& final(self)@ == old(self)@
                },
            },
    {
        proof {
            use_type_invariant(&*self);
        }
        if self.rows != self.cols {
            return Err(MatrixError::NotSquare);
        }
        let mut data = copy_rows(&self.data);
        let n = self.rows;
        let mut i: usize = 0;
        assert(grid_of(data@).len() == data@.len());
        while i < n
            invariant
                i <= n,
                n == self.rows,
                n == self.cols,
                self.well_formed(),
                *self == *old(self),
                data@.len() == n,
                forall|k: int|
                    0 <= k < i ==> (#[trigger] data@[k])@ == self@[k].update(k, T::one_spec()),
                forall|k: int| i <= k < n ==> (#[trigger] data@[k])@ == self@[k],
            decreases n - i,
        {
            let mut row = copy_row(&data[i]);
            row.set(i, T::one());
            data.set(i, row);
            i = i + 1;
        }
        assert(grid_of(data@) =~= with_unit_diagonal(old(self)@));
        self.put(data);
        Ok(())
    }

    /// Replaces every entry by what `f` makes of it.
    pub fn apply<F: Fn(T) -> T>(&mut self, f: F)
        requires
            forall|i: int, j: int|
                0 <= i < old(self)@.len() && 0 <= j < old(self)@[i].len() ==> call_requires(
                    f,
                    (#[trigger] old(self)@[i][j],),
                ),
        ensures
            final(self).cols_spec() == old(self).cols_spec(),
            final(self)@.len() == old(self)@.len(),
            rectangular(final(self)@, final(self).cols_spec()),
            forall|i: int, j: int|
                0 <= i < old(self)@.len() && 0 <= j < old(self)@[i].len() ==> call_ensures(
                    f,
                    (old(self)@[i][j],),
                    #[trigger] final(self)@[i][j],
                ),
    {
        proof {
            use_type_invariant(&*self);
        }
        let mut data: Vec<Vec<T>> = Vec::new();
        let mut i: usize = 0;
        while i < self.rows
            invariant
                i <= self.rows,
                self.well_formed(),
                *self == *old(self),
                data@.len() == i,
                forall|a: int, b: int|
                    0 <= a < self@.len() && 0 <= b < self@[a].len() ==> call_requires(
                        f,
                        (#[trigger] self@[a][b],),
                    ),
                forall|k: int| 0 <= k < i ==> (#[trigger] data@[k])@.len() == self.cols,
                forall|a: int, b: int|
                    0 <= a < i && 0 <= b < self.cols ==> call_ensures(
                        f,
                        (self@[a][b],),
                        #[trigger] data@[a]@[b],
                    ),
            decreases self.rows - i,
        {
            let mut row: Vec<T> = Vec::new();
            let mut j: usize = 0;
            while j < self.cols
                invariant
                    j <= self.cols,
                    i < self.rows,
                    self.well_formed(),
                    row@.len() == j,
                    forall|a: int, b: int|
                        0 <= a < self@.len() && 0 <= b < self@[a].len() ==> call_requires(
                            f,
                            (#[trigger] self@[a][b],),
                        ),
                    forall|b: int|
                        0 <= b < j ==> call_ensures(f, (self@[i as int][b],), #[trigger] row@[b]),
                decreases self.cols - j,
            {
                let x: T = self.data[i][j];
                assert(x == self@[i as int][j as int]);
                row.push(f(x));
                j = j + 1;
            }
            data.push(row);
            i = i + 1;
        }
        assert(rectangular(grid_of(data@), self.cols as nat));
        self.put(data);
    }

    /// The entry in row `r` and column `c`, if there is one.
    pub fn get(&self, r: usize, c: usize) -> (x: Option<T>)
        ensures
            x == if r < self.rows_spec() && c < self.cols_spec() {
                Some(self@[r as int][c as int])
            } else {
                None
            },
    {
        proof {
            use_type_invariant(self);
        }
        if r < self.rows && c < self.cols {
            Some(self.data[r][c])
        } else {
            None
        }
    }
}

} // verus!
