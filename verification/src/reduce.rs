use vstd::prelude::*;
use crate::error::MatrixError;
use crate::matrix::{copy_row, grid_of, rectangular, Matrix};
use crate::scalar::Scalar;

verus! {

/// Whether `x` lies strictly between zero and the noise width, on either side
/// of zero.
pub open spec fn is_noise<T: Scalar>(x: T) -> bool {
    let zero = T::zero_spec();
    let eps = T::epsilon_spec();
    (zero.below_spec(x) && x.below_spec(eps)) || (x.below_spec(zero) && zero.minus_spec(
        eps,
    ).below_spec(x))
}

/// Whether `x` lies less than the noise width below the next integer.
pub open spec fn is_nearly_next<T: Scalar>(x: T) -> bool {
    T::one_spec().minus_spec(T::epsilon_spec()).below_spec(x.minus_spec(x.floor_spec()))
}

/// A scalar with the noise taken off: noise around zero becomes zero, a value
/// just below an integer becomes that integer, every zero becomes the one zero,
/// and anything else stays.
pub open spec fn settled<T: Scalar>(x: T) -> T {
    if is_noise(x) {
        T::zero_spec()
    } else if is_nearly_next(x) {
        x.round_spec()
    } else if x.same_spec(T::zero_spec()) {
        T::zero_spec()
    } else {
        x
    }
}

/// The grid with every entry settled.
pub open spec fn settled_grid<T: Scalar>(cells: Seq<Seq<T>>) -> Seq<Seq<T>> {
    Seq::new(cells.len(), |i: int| Seq::new(cells[i].len(), |j: int| settled(cells[i][j])))
}

/// The first row at or after `from` whose first entry is above zero, and row 0
/// where there is none.
pub open spec fn first_positive<T: Scalar>(cells: Seq<Seq<T>>, from: int) -> int
    decreases cells.len() - from,
{
    if from < 0 || from >= cells.len() {
        0
    } else if T::zero_spec().below_spec(cells[from][0]) {
        from
    } else {
        first_positive(cells, from + 1)
    }
}

/// The grid with rows `a` and `b` exchanged.
pub open spec fn exchanged<T>(cells: Seq<Seq<T>>, a: int, b: int) -> Seq<Seq<T>> {
    cells.update(a, cells[b]).update(b, cells[a])
}

/// The grid as row reduction starts on it: where the top left entry is zero,
/// the first row that begins with a positive entry has changed places with
/// row 0.
pub open spec fn pivoted<T: Scalar>(cells: Seq<Seq<T>>) -> Seq<Seq<T>> {
    if cells.len() > 0 && cells[0].len() > 0 && cells[0][0].same_spec(T::zero_spec()) {
        exchanged(cells, 0, first_positive(cells, 0))
    } else {
        cells
    }
}

/// What one step of a pass does to row `r` while the pivot stands at `lead`:
/// the pivot row is divided by the pivot, and from any other row the pivot row
/// is taken off as many times as the pivot goes into that row's entry in the
/// pivot's column.
pub open spec fn step<T: Scalar>(cells: Seq<Seq<T>>, lead: int, r: int) -> Seq<Seq<T>> {
    let div = cells[lead][lead];
    let mult = cells[r][lead].over_spec(div);
    if r == lead {
        cells.update(r, Seq::new(cells[r].len(), |c: int| cells[r][c].over_spec(div)))
    } else {
        cells.update(
            r,
            Seq::new(
                cells[r].len(),
                |c: int| cells[r][c].minus_spec(cells[lead][c].times_spec(mult)),
            ),
        )
    }
}

/// The grid after the steps on the first `upto` rows of the pass at `lead`,
/// taken from the top.
pub open spec fn sweep<T: Scalar>(cells: Seq<Seq<T>>, lead: int, upto: nat) -> Seq<Seq<T>>
    decreases upto,
{
    if upto == 0 {
        cells
    } else {
        step(sweep(cells, lead, (upto - 1) as nat), lead, upto - 1)
    }
}

/// The grid after the passes at the first `leads` places of the diagonal, and
/// whether a zero pivot stopped them. A pass runs only where its pivot is not
/// zero; the first zero pivot leaves the grid as the passes before it made it.
pub open spec fn elimination<T: Scalar>(cells: Seq<Seq<T>>, leads: nat) -> (Seq<Seq<T>>, bool)
    decreases leads,
{
    if leads == 0 {
        (cells, false)
    } else {
        let (before, stopped) = elimination(cells, (leads - 1) as nat);
        if stopped || before[leads - 1][leads - 1].same_spec(T::zero_spec()) {
            (before, true)
        } else {
            (sweep(before, leads - 1, cells.len()), false)
        }
    }
}

/// The row that [`first_positive`] names exists, unless the grid is empty.
pub proof fn lemma_first_positive_is_a_row<T: Scalar>(cells: Seq<Seq<T>>, from: int)
    ensures
        0 <= first_positive(cells, from),
        first_positive(cells, from) < cells.len() || cells.len() == 0,
    decreases cells.len() - from,
{
    if 0 <= from < cells.len() && !T::zero_spec().below_spec(cells[from][0]) {
        lemma_first_positive_is_a_row(cells, from + 1);
    }
}

/// A step keeps the shape of the grid.
pub proof fn lemma_step_shape<T: Scalar>(cells: Seq<Seq<T>>, cols: nat, lead: int, r: int)
    requires
        rectangular(cells, cols),
        0 <= r < cells.len(),
    ensures
        step(cells, lead, r).len() == cells.len(),
        rectangular(step(cells, lead, r), cols),
{
}

/// Takes the noise off one scalar.
pub fn settle<T: Scalar>(x: T) -> (r: T)
    ensures
        r == settled(x),
{
    let zero = T::zero();
    let eps = T::epsilon();
    if (zero.below(x) && x.below(eps)) || (x.below(zero) && zero.minus(eps).below(x)) {
        zero
    } else if T::one().minus(eps).below(x.minus(x.floor())) {
        x.round()
    } else if x.same(zero) {
        zero
    } else {
        x
    }
}

/// Takes the noise off every entry of `m`.
pub fn correct<T: Scalar>(m: &mut Matrix<T>)
    ensures
        final(m)@ == settled_grid(old(m)@),
        final(m).cols_spec() == old(m).cols_spec(),
{
    let mut data = m.to_rows();
    settle_rows(&mut data);
    proof {
        assert(rectangular(grid_of(data@), m.cols_spec())) by {
            assert forall|i: int| 0 <= i < grid_of(data@).len() implies (#[trigger] grid_of(
                data@,
            )[i]).len() == m.cols_spec() by {
                assert(settled_grid(m@)[i].len() == m@[i].len());
            }
        }
    }
    m.put(data);
}

/// Takes the noise off every entry of `data`.
pub fn settle_rows<T: Scalar>(data: &mut Vec<Vec<T>>)
    ensures
        grid_of(final(data)@) == settled_grid(grid_of(old(data)@)),
        final(data)@.len() == old(data)@.len(),
{
    let rows = data.len();
    let mut i: usize = 0;
    while i < rows
        invariant
            i <= rows,
            rows == data@.len(),
            rows == old(data)@.len(),
            forall|k: int|
                0 <= k < i ==> (#[trigger] data@[k])@ == settled_grid(grid_of(old(data)@))[k],
            forall|k: int| i <= k < rows ==> (#[trigger] data@[k])@ == old(data)@[k]@,
        decreases rows - i,
    {
        let cols = data[i].len();
        let mut row: Vec<T> = Vec::new();
        let mut j: usize = 0;
        while j < cols
            invariant
                j <= cols,
                i < rows,
                rows == data@.len(),
                cols == data@[i as int]@.len(),
                row@.len() == j,
                forall|k: int| 0 <= k < j ==> #[trigger] row@[k] == settled(data@[i as int]@[k]),
            decreases cols - j,
        {
            row.push(settle(data[i][j]));
            j = j + 1;
        }
        assert(row@ =~= settled_grid(grid_of(old(data)@))[i as int]);
        data.set(i, row);
        i = i + 1;
    }
    assert(grid_of(data@) =~= settled_grid(grid_of(old(data)@)));
}

/// Exchanges row `row` with the first row that begins with an entry above
/// zero, or with row 0 where no row does. A matrix without columns, and one
/// that has no row `row`, is left as it is.
pub fn swap_rows<T: Scalar>(m: &mut Matrix<T>, row: usize)
    ensures
        final(m).cols_spec() == old(m).cols_spec(),
        final(m).rows_spec() == old(m).rows_spec(),
        0 <= first_positive(old(m)@, 0) < old(m).rows_spec() || old(m).rows_spec() == 0,
        final(m)@ == if row < old(m).rows_spec() && old(m).cols_spec() > 0 {
            exchanged(old(m)@, row as int, first_positive(old(m)@, 0))
        } else {
            old(m)@
        },
{
    let rows = m.rows();
    let cols = m.cols();
    proof {
        lemma_first_positive_is_a_row(m@, 0);
    }
    if row >= rows || cols == 0 {
        return ;
    }
    let mut r: usize = 0;
    while r < rows && !T::zero().below(m.entry(r, 0))
        invariant
            r <= rows,
            rows == m@.len(),
            cols == m.cols_spec(),
            cols > 0,
            rectangular(m@, cols as nat),
            first_positive(m@, 0) == first_positive(m@, r as int),
        decreases rows - r,
    {
        r = r + 1;
    }
    let found = if r < rows {
        r
    } else {
        0
    };
    assert(found == first_positive(m@, 0));
    let mut data = m.to_rows();
    let upper = copy_row(&data[row]);
    let lower = copy_row(&data[found]);
    data.set(row, lower);
    data.set(found, upper);
    assert(grid_of(data@) =~= exchanged(m@, row as int, found as int));
    m.put(data);
}

impl<T: Scalar> Matrix<T> {
    /// Reduces the matrix in place, pivot by pivot along the diagonal, and
    /// takes the noise off the result.
    ///
    /// A matrix with more rows than columns has no diagonal long enough and is
    /// refused unchanged. Where a pivot is zero the reduction stops there, and
    /// the matrix is left as the passes before that pivot made it.
    pub fn rref(&mut self) -> (r: Result<(), MatrixError>)
        ensures
            final(self).cols_spec() == old(self).cols_spec(),
            old(self).rows_spec() > old(self).cols_spec() ==> r == Err::<(), MatrixError>(
                MatrixError::DimensionMismatch,
            ) && final(self)@ == old(self)@,
            old(self).rows_spec() <= old(self).cols_spec() ==> ({
                let (cells, stopped) = elimination(pivoted(old(self)@), old(self).rows_spec());
                if stopped {
                    r == Err::<(), MatrixError>(MatrixError::ZeroPivot) && final(self)@ == cells
                } else {
                    r == Ok::<(), MatrixError>(()) && final(self)@ == settled_grid(cells)
                }
            }),
    {
        let rows = self.rows();
        let cols = self.cols();
        if rows > cols {
            return Err(MatrixError::DimensionMismatch);
        }
        if rows > 0 && self.entry(0, 0).same(T::zero()) {
            swap_rows(self, 0);
        }
        let mut data = self.to_rows();
        let ghost start = self@;
        assert(old(self)@.len() > 0 ==> old(self)@[0].len() == cols);
        assert(start == pivoted(old(self)@));
        assert(start.len() == rows);
        assert(rectangular(start, cols as nat));
        let mut lead: usize = 0;
        while lead < rows
            invariant
                lead <= rows,
                rows <= cols,
                rows == start.len(),
                rows == self.rows_spec(),
                cols == self.cols_spec(),
                rows == old(self).rows_spec(),
                cols == old(self).cols_spec(),
                start == pivoted(old(self)@),
                data@.len() == rows,
                rectangular(grid_of(data@), cols as nat),
                elimination(start, lead as nat) == (grid_of(data@), false),
            decreases rows - lead,
        {
            assert(grid_of(data@)[lead as int].len() == cols);
            if data[lead][lead].same(T::zero()) {
                proof {
                    lemma_stopped_stays(start, (lead + 1) as nat, rows as nat);
                }
                self.put(data);
                return Err(MatrixError::ZeroPivot);
            }
            let ghost before = grid_of(data@);
            let mut r: usize = 0;
            while r < rows
                invariant
                    r <= rows,
                    lead < rows,
                    rows <= cols,
                    rows == before.len(),
                    data@.len() == rows,
                    rectangular(grid_of(data@), cols as nat),
                    grid_of(data@) == sweep(before, lead as int, r as nat),
                decreases rows - r,
            {
                let ghost now = grid_of(data@);
                assert(now[lead as int].len() == cols);
                assert(now[r as int].len() == cols);
                let div: T = data[lead][lead];
                let mult: T = data[r][lead].over(div);
                let mut row: Vec<T> = Vec::new();
                let mut c: usize = 0;
                while c < cols
                    invariant
                        c <= cols,
                        r < rows,
                        lead < rows,
                        rows <= cols,
                        data@.len() == rows,
                        now == grid_of(data@),
                        now[lead as int].len() == cols,
                        now[r as int].len() == cols,
                        div == now[lead as int][lead as int],
                        mult == now[r as int][lead as int].over_spec(div),
                        row@.len() == c,
                        forall|k: int| 0 <= k < c ==> #[trigger] row@[k] == step(now, lead as int, r as int)[r as int][k],
                    decreases cols - c,
                {
                    if r == lead {
                        row.push(data[r][c].over(div));
                    } else {
                        row.push(data[r][c].minus(data[lead][c].times(mult)));
                    }
                    c = c + 1;
                }
                assert(row@ =~= step(now, lead as int, r as int)[r as int]);
                data.set(r, row);
                proof {
                    assert(grid_of(data@) =~= step(now, lead as int, r as int));
                    lemma_step_shape(now, cols as nat, lead as int, r as int);
                }
                r = r + 1;
            }
            lead = lead + 1;
        }
        settle_rows(&mut data);
        proof {
            let cells = elimination(start, rows as nat).0;
            assert forall|i: int| 0 <= i < grid_of(data@).len() implies (#[trigger] grid_of(
                data@,
            )[i]).len() == cols by {
                assert(settled_grid(cells)[i].len() == cells[i].len());
            }
        }
        self.put(data);
        Ok(())
    }
}

/// Once a zero pivot has stopped the passes, later places change nothing.
pub proof fn lemma_stopped_stays<T: Scalar>(cells: Seq<Seq<T>>, at: nat, leads: nat)
    requires
        at <= leads,
        elimination(cells, at).1,
    ensures
        elimination(cells, leads) == elimination(cells, at),
    decreases leads,
{
    if at < leads {
        lemma_stopped_stays(cells, at, (leads - 1) as nat);
    }
}

} // verus!
