use vstd::prelude::*;
use crate::arith::{product_grid, row_by_column};
use crate::det::{cofactor, determinant, expansion, minor, sign};
use crate::matrix::{identity_grid, rectangular, transposed};
use crate::scalar::{unital, zero_absorbs, Scalar};

verus! {

/// Every entry of `cells` behaves against zero and one as a number should.
pub open spec fn all_unital<T: Scalar>(cells: Seq<Seq<T>>) -> bool {
    forall|i: int, j: int|
        0 <= i < cells.len() && 0 <= j < cells[i].len() ==> unital(#[trigger] cells[i][j])
}

/// Transposing twice gives the grid back.
pub proof fn lemma_transpose_twice<T>(cells: Seq<Seq<T>>, cols: nat)
    requires
        rectangular(cells, cols),
    ensures
        transposed(transposed(cells, cols), cells.len()) == cells,
{
    assert(transposed(transposed(cells, cols), cells.len()) =~~= cells);
}

/// Row `i` of the identity by column `j` of `a`, up to `upto` terms: zero until
/// the diagonal is passed, the entry of `a` at `(i, j)` from then on.
proof fn lemma_identity_row_by_column<T: Scalar>(
    a: Seq<Seq<T>>,
    cols: nat,
    i: int,
    j: int,
    upto: nat,
)
    requires
        rectangular(a, cols),
        all_unital(a),
        unital(T::zero_spec()),
        0 <= i < a.len(),
        0 <= j < cols,
        upto <= a.len(),
    ensures
        row_by_column(identity_grid::<T>(a.len())[i], a, j, upto) == if upto <= i {
            T::zero_spec()
        } else {
            a[i][j]
        },
    decreases upto,
{
    if upto > 0 {
        lemma_identity_row_by_column(a, cols, i, j, (upto - 1) as nat);
        assert(unital(a[upto - 1][j]));
        assert(unital(a[i][j]));
    }
}

/// Row `i` of `a` by column `j` of the identity, up to `upto` terms: zero until
/// column `j` is passed, the entry of `a` at `(i, j)` from then on.
proof fn lemma_row_by_identity_column<T: Scalar>(
    a: Seq<Seq<T>>,
    cols: nat,
    i: int,
    j: int,
    upto: nat,
)
    requires
        rectangular(a, cols),
        all_unital(a),
        unital(T::zero_spec()),
        0 <= i < a.len(),
        0 <= j < cols,
        upto <= cols,
    ensures
        row_by_column(a[i], identity_grid::<T>(cols), j, upto) == if upto <= j {
            T::zero_spec()
        } else {
            a[i][j]
        },
    decreases upto,
{
    if upto > 0 {
        lemma_row_by_identity_column(a, cols, i, j, (upto - 1) as nat);
        assert(unital(a[i][upto - 1]));
        assert(unital(a[i][j]));
    }
}

/// The identity times `a` is `a`, for every `a` whose entries behave against
/// zero and one as numbers should.
pub proof fn lemma_identity_times<T: Scalar>(a: Seq<Seq<T>>, cols: nat)
    requires
        rectangular(a, cols),
        all_unital(a),
        unital(T::zero_spec()),
    ensures
        product_grid(identity_grid::<T>(a.len()), a, cols) == a,
{
    let p = product_grid(identity_grid::<T>(a.len()), a, cols);
    assert forall|i: int, j: int| 0 <= i < a.len() && 0 <= j < cols implies p[i][j]
        == a[i][j] by {
        lemma_identity_row_by_column(a, cols, i, j, a.len());
    }
    assert(p =~~= a);
}

/// `a` times the identity is `a`, for every `a` whose entries behave against
/// zero and one as numbers should.
pub proof fn lemma_times_identity<T: Scalar>(a: Seq<Seq<T>>, cols: nat)
    requires
        rectangular(a, cols),
        all_unital(a),
        unital(T::zero_spec()),
    ensures
        product_grid(a, identity_grid::<T>(cols), cols) == a,
{
    let p = product_grid(a, identity_grid::<T>(cols), cols);
    assert forall|i: int, j: int| 0 <= i < a.len() && 0 <= j < cols implies p[i][j]
        == a[i][j] by {
        lemma_row_by_identity_column(a, cols, i, j, cols);
    }
    assert(p =~~= a);
}

/// The minor of a square grid is square, one smaller.
pub proof fn lemma_minor_square<T>(cells: Seq<Seq<T>>, row: int, col: int)
    requires
        cells.len() > 0,
        rectangular(cells, cells.len()),
    ensures
        minor(cells, row, col).len() == cells.len() - 1,
        rectangular(minor(cells, row, col), (cells.len() - 1) as nat),
{
}

/// The first `upto` terms of the expansion of the identity along its second
/// row: zero before the diagonal is reached, one from then on.
proof fn lemma_identity_expansion<T: Scalar>(n: nat, upto: nat)
    requires
        n >= 3,
        upto <= n,
        zero_absorbs::<T>(),
        unital(T::zero_spec()),
        unital(T::one_spec()),
    ensures
        expansion(identity_grid::<T>(n), upto) == if upto <= 1 {
            T::zero_spec()
        } else {
            T::one_spec()
        },
    decreases n, upto,
{
    if upto > 0 {
        let id = identity_grid::<T>(n);
        lemma_identity_expansion::<T>(n, (upto - 1) as nat);
        if upto == 2 {
            assert(minor(id, 1, 1) =~~= identity_grid::<T>((n - 1) as nat));
            lemma_determinant_of_identity::<T>((n - 1) as nat);
            assert(sign::<T>(2) == T::one_spec());
            assert(cofactor(id, 1, 1) == T::one_spec());
        }
    }
}

/// The determinant of the identity is one, in any size, for scalars among which
/// zero absorbs and zero and one behave as they should.
pub proof fn lemma_determinant_of_identity<T: Scalar>(n: nat)
    requires
        zero_absorbs::<T>(),
        unital(T::zero_spec()),
        unital(T::one_spec()),
    ensures
        determinant(identity_grid::<T>(n)) == T::one_spec(),
    decreases n, n + 1,
{
    if n >= 3 {
        lemma_identity_expansion::<T>(n, n);
    }
}

/// The first `upto` terms of the expansion of a grid with a zero row are zero.
proof fn lemma_zero_row_expansion<T: Scalar>(cells: Seq<Seq<T>>, row: int, upto: nat)
    requires
        cells.len() >= 3,
        upto <= cells.len(),
        rectangular(cells, cells.len()),
        0 <= row < cells.len(),
        forall|j: int| 0 <= j < cells.len() ==> #[trigger] cells[row][j] == T::zero_spec(),
        zero_absorbs::<T>(),
        unital(T::zero_spec()),
    ensures
        expansion(cells, upto) == T::zero_spec(),
    decreases cells.len(), upto,
{
    if upto > 0 {
        lemma_zero_row_expansion(cells, row, (upto - 1) as nat);
        if row != 1 {
            let cut = minor(cells, 1, upto - 1);
            let at = if row < 1 {
                row
            } else {
                row - 1
            };
            lemma_minor_square(cells, 1, upto - 1);
            assert forall|j: int| 0 <= j < cut.len() implies #[trigger] cut[at][j]
                == T::zero_spec() by {
                if j < upto - 1 {
                    assert(cut[at][j] == cells[row][j]);
                } else {
                    assert(cut[at][j] == cells[row][j + 1]);
                }
            }
            lemma_determinant_with_zero_row(cut, at);
            assert(cofactor(cells, 1, upto - 1) == determinant(cut).times_spec(
                sign::<T>(1 + (upto - 1)),
            ));
            assert(cofactor(cells, 1, upto - 1) == T::zero_spec());
        } else {
            assert(cells[row][upto - 1] == T::zero_spec());
        }
        assert(cofactor(cells, 1, upto - 1).times_spec(cells[1][upto - 1]) == T::zero_spec());
    }
}

/// The determinant of a square grid with a row of zeros is zero, for scalars
/// among which zero absorbs and behaves as it should.
pub proof fn lemma_determinant_with_zero_row<T: Scalar>(cells: Seq<Seq<T>>, row: int)
    requires
        rectangular(cells, cells.len()),
        0 <= row < cells.len(),
        forall|j: int| 0 <= j < cells.len() ==> #[trigger] cells[row][j] == T::zero_spec(),
        zero_absorbs::<T>(),
        unital(T::zero_spec()),
    ensures
        determinant(cells) == T::zero_spec(),
    decreases cells.len(), cells.len() + 1,
{
    if cells.len() >= 3 {
        lemma_zero_row_expansion(cells, row, cells.len());
    } else if cells.len() == 2 {
        assert(cells[row][0] == T::zero_spec());
        assert(cells[row][1] == T::zero_spec());
    } else {
        assert(cells[row][0] == T::zero_spec());
    }
}

} // verus!
