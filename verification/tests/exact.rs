//! The matrices filled with integers modulo a prime, whose arithmetic is exact.

use juzhen::modular::{raise, MODULUS};
use juzhen::reduce::{correct, settle, swap_rows};
use juzhen::{Matrix, MatrixError, Modular, Scalar};

fn n(value: i64) -> Modular {
    Modular::from_int(value)
}

fn matrix(text: &str) -> Matrix<Modular> {
    Matrix::from_string(text, Modular::parse).unwrap()
}

fn grid(rows: &[&[i64]]) -> Vec<Vec<Modular>> {
    rows.iter().map(|row| row.iter().map(|&x| n(x)).collect()).collect()
}

fn identity(size: usize) -> Matrix<Modular> {
    let mut m = Matrix::new(size, size);
    m.identity().unwrap();
    m
}

#[test]
fn new_is_all_zero() {
    let m: Matrix<Modular> = Matrix::new(2, 3);
    assert_eq!(m.rows(), 2);
    assert_eq!(m.cols(), 3);
    assert_eq!(m.to_rows(), grid(&[&[0, 0, 0], &[0, 0, 0]]));
    let empty: Matrix<Modular> = Matrix::new(0, 4);
    assert_eq!(empty.rows(), 0);
    assert_eq!(empty.cols(), 4);
    assert_eq!(empty.to_rows(), Vec::<Vec<Modular>>::new());
}

#[test]
fn get_answers_inside_the_matrix_only() {
    let m = matrix("1 2 3 ; 4 5 6");
    assert_eq!(m.get(1, 2), Some(n(6)));
    assert_eq!(m.get(0, 0), Some(n(1)));
    assert_eq!(m.get(2, 0), None);
    assert_eq!(m.get(0, 3), None);
}

#[test]
fn from_rows_refuses_ragged_rows() {
    let ragged = Matrix::from_rows(grid(&[&[1, 2], &[3]]));
    assert_eq!(ragged.unwrap_err(), MatrixError::Parse);
    let fine = Matrix::from_rows(grid(&[&[1, 2], &[3, 4]])).unwrap();
    assert_eq!(fine.cols(), 2);
    let none = Matrix::from_rows(Vec::<Vec<Modular>>::new()).unwrap();
    assert_eq!((none.rows(), none.cols()), (0, 0));
}

#[test]
fn copy_has_storage_of_its_own() {
    let given = matrix("1 2 ; 3 4");
    let mut copy = given.copy();
    copy.apply(|x: Modular| x.plus(n(1)));
    assert_eq!(given.to_rows(), grid(&[&[1, 2], &[3, 4]]));
    assert_eq!(copy.to_rows(), grid(&[&[2, 3], &[4, 5]]));
}

#[test]
fn identity_writes_the_diagonal_only() {
    let mut m = matrix("5 6 ; 7 8");
    assert_eq!(m.identity(), Ok(()));
    assert_eq!(m.to_rows(), grid(&[&[1, 6], &[7, 1]]));
    assert_eq!(identity(3).to_rows(), grid(&[&[1, 0, 0], &[0, 1, 0], &[0, 0, 1]]));
}

#[test]
fn identity_refuses_what_is_not_square() {
    let mut m = matrix("1 2 3 ; 4 5 6");
    assert_eq!(m.identity(), Err(MatrixError::NotSquare));
    assert_eq!(m.to_rows(), grid(&[&[1, 2, 3], &[4, 5, 6]]));
}

#[test]
fn add_and_subtract_go_entry_by_entry() {
    let a = matrix("1 2 ; 3 4");
    let b = matrix("10 20 ; 30 40");
    assert_eq!(a.add(&b).unwrap().to_rows(), grid(&[&[11, 22], &[33, 44]]));
    assert_eq!(a.subtract(&b).unwrap().to_rows(), grid(&[&[-9, -18], &[-27, -36]]));
    assert_eq!(a.to_rows(), grid(&[&[1, 2], &[3, 4]]));
    assert_eq!(b.to_rows(), grid(&[&[10, 20], &[30, 40]]));
}

#[test]
fn add_and_subtract_refuse_other_shapes() {
    let a = matrix("1 2 ; 3 4");
    let wide = matrix("1 2 3 ; 4 5 6");
    let tall = matrix("1 2 ; 3 4 ; 5 6");
    assert_eq!(a.add(&wide).unwrap_err(), MatrixError::DimensionMismatch);
    assert_eq!(a.add(&tall).unwrap_err(), MatrixError::DimensionMismatch);
    assert_eq!(a.subtract(&wide).unwrap_err(), MatrixError::DimensionMismatch);
    assert_eq!(a.subtract(&tall).unwrap_err(), MatrixError::DimensionMismatch);
}

#[test]
fn dot_two_by_two() {
    let product = matrix("1 2 ; 3 4").dot(&matrix("5 6 ; 7 8")).unwrap();
    assert_eq!(product.to_rows(), matrix("19 22 ; 43 50").to_rows());
}

#[test]
fn dot_takes_shapes_that_are_not_square() {
    let a = matrix("1 2 3 ; 4 5 6");
    let b = matrix("1 0 2 1 ; 0 1 3 1 ; 1 1 0 1");
    let product = a.dot(&b).unwrap();
    assert_eq!((product.rows(), product.cols()), (2, 4));
    assert_eq!(product.to_rows(), grid(&[&[4, 5, 8, 6], &[10, 11, 23, 15]]));
    let column = matrix("1 ; 2 ; 3");
    assert_eq!(a.dot(&column).unwrap().to_rows(), grid(&[&[14], &[32]]));
}

#[test]
fn dot_refuses_when_inner_sizes_differ() {
    let a = matrix("1 2 3 ; 4 5 6");
    assert_eq!(a.dot(&a).unwrap_err(), MatrixError::DimensionMismatch);
    assert_eq!(a.dot(&matrix("1 2 ; 3 4")).unwrap_err(), MatrixError::DimensionMismatch);
}

#[test]
fn dot_with_identity_changes_nothing() {
    let a = matrix("1 2 3 ; 4 5 6");
    assert_eq!(identity(2).dot(&a).unwrap().to_rows(), a.to_rows());
    assert_eq!(a.dot(&identity(3)).unwrap().to_rows(), a.to_rows());
}

#[test]
fn transpose_twice_is_the_matrix() {
    let a = matrix("1 2 3 ; 4 5 6");
    let t = a.transpose();
    assert_eq!((t.rows(), t.cols()), (3, 2));
    assert_eq!(t.to_rows(), grid(&[&[1, 4], &[2, 5], &[3, 6]]));
    let back = t.transpose();
    assert_eq!((back.rows(), back.cols()), (2, 3));
    assert_eq!(back.to_rows(), a.to_rows());
    let empty: Matrix<Modular> = Matrix::new(0, 3);
    let turned = empty.transpose();
    assert_eq!((turned.rows(), turned.cols()), (3, 0));
    assert_eq!((turned.transpose().rows(), turned.transpose().cols()), (0, 3));
}

#[test]
fn det_of_identity_is_one() {
    assert_eq!(matrix("1 0 ; 0 1").det(), Ok(n(1)));
    for size in 0..6 {
        assert_eq!(identity(size).det(), Ok(n(1)));
    }
}

#[test]
fn det_of_two_by_two() {
    assert_eq!(matrix("1 2 ; 3 4").det(), Ok(n(1 * 4 - 2 * 3)));
    assert_eq!(matrix("1 2 ; 3 4").det(), Ok(n(-2)));
}

#[test]
fn det_of_small_and_large() {
    let nothing: Matrix<Modular> = Matrix::new(0, 0);
    assert_eq!(nothing.det(), Ok(n(1)));
    assert_eq!(matrix("7").det(), Ok(n(7)));
    assert_eq!(matrix("1 2 4 ; 7 5 -2 ; 3 0 9").det(), Ok(n(-153)));
    assert_eq!(matrix("1 2 3 ; 4 5 6 ; 7 8 9").det(), Ok(n(0)));
    assert_eq!(matrix("1 2 0 1 ; 0 1 3 2 ; 4 0 1 1 ; 2 1 0 3").det(), Ok(n(58)));
}

#[test]
fn det_with_a_zero_row_is_zero() {
    assert_eq!(matrix("0 0 ; 3 4").det(), Ok(n(0)));
    assert_eq!(matrix("3 4 ; 0 0").det(), Ok(n(0)));
    assert_eq!(matrix("0 0 0 ; 4 5 6 ; 7 8 10").det(), Ok(n(0)));
    assert_eq!(matrix("1 2 3 ; 0 0 0 ; 7 8 10").det(), Ok(n(0)));
    assert_eq!(matrix("1 2 3 ; 4 5 6 ; 0 0 0").det(), Ok(n(0)));
    assert_eq!(matrix("1 2 3 4 ; 5 6 7 8 ; 9 1 2 3 ; 0 0 0 0").det(), Ok(n(0)));
}

#[test]
fn det_refuses_what_is_not_square() {
    assert_eq!(matrix("1 2 3 ; 4 5 6").det(), Err(MatrixError::NotSquare));
}

#[test]
fn minor_deletes_a_row_and_a_column() {
    let m = matrix("1 2 3 ; 4 5 6 ; 7 8 9");
    assert_eq!(m.minor(1, 1).unwrap().to_rows(), grid(&[&[1, 3], &[7, 9]]));
    assert_eq!(m.minor(0, 2).unwrap().to_rows(), grid(&[&[4, 5], &[7, 8]]));
    assert_eq!(m.minor(2, 0).unwrap().to_rows(), grid(&[&[2, 3], &[5, 6]]));
    assert_eq!(m.minor(3, 0).unwrap_err(), MatrixError::OutOfBounds);
    assert_eq!(m.minor(0, 3).unwrap_err(), MatrixError::OutOfBounds);
}

#[test]
fn cofactor_is_the_signed_minor() {
    let m = matrix("1 2 4 ; 7 5 -2 ; 3 0 9");
    assert_eq!(m.cofactor(0, 0), Ok(n(45)));
    assert_eq!(m.cofactor(0, 1), Ok(n(-69)));
    assert_eq!(m.cofactor(0, 2), Ok(n(-15)));
    assert_eq!(m.cofactor(1, 0), Ok(n(-18)));
    assert_eq!(m.cofactor(2, 1), Ok(n(30)));
    assert_eq!(matrix("9").cofactor(0, 0), Ok(n(1)));
}

#[test]
fn cofactor_refuses_bad_shapes_and_places() {
    assert_eq!(matrix("1 2 3 ; 4 5 6").cofactor(0, 0), Err(MatrixError::NotSquare));
    assert_eq!(matrix("1 2 ; 3 4").cofactor(2, 0), Err(MatrixError::OutOfBounds));
    assert_eq!(matrix("1 2 ; 3 4").cofactor(0, 2), Err(MatrixError::OutOfBounds));
    let nothing: Matrix<Modular> = Matrix::new(0, 0);
    assert_eq!(nothing.cofactor(0, 0), Err(MatrixError::OutOfBounds));
}

#[test]
fn inverse_of_scaled_identity() {
    let inverse = matrix("2 0 ; 0 2").inverse().unwrap();
    assert_eq!(inverse.to_rows(), matrix("0.5 0 ; 0 0.5").to_rows());
    let half = n(1).over(n(2));
    assert_eq!(inverse.to_rows(), vec![vec![half, n(0)], vec![n(0), half]]);
}

#[test]
fn inverse_times_original_is_identity() {
    let given = matrix("1 2 4 ; 7 5 -2 ; 3 0 9");
    let inverse = given.inverse().unwrap();
    assert_eq!(inverse.dot(&given).unwrap().to_rows(), identity(3).to_rows());
    assert_eq!(given.dot(&inverse).unwrap().to_rows(), identity(3).to_rows());
    assert_eq!(given.to_rows(), grid(&[&[1, 2, 4], &[7, 5, -2], &[3, 0, 9]]));
    let one = matrix("4");
    assert_eq!(one.inverse().unwrap().to_rows(), vec![vec![n(1).over(n(4))]]);
}

#[test]
fn inverse_of_singular_is_refused() {
    assert_eq!(matrix("1 2 3 ; 0 0 0 ; 4 5 6").inverse().unwrap_err(), MatrixError::Singular);
    assert_eq!(matrix("1 2 ; 2 4").inverse().unwrap_err(), MatrixError::Singular);
    assert_eq!(matrix("0").inverse().unwrap_err(), MatrixError::Singular);
}

#[test]
fn inverse_refuses_what_is_not_square() {
    assert_eq!(matrix("1 2 3 ; 4 5 6").inverse().unwrap_err(), MatrixError::NotSquare);
}

#[test]
fn rref_reduces_to_identity() {
    let mut m = matrix("2 4 ; 1 3");
    assert_eq!(m.rref(), Ok(()));
    assert_eq!(m.to_rows(), grid(&[&[1, 0], &[0, 1]]));
    let mut system = matrix("1 1 3 ; 1 -1 1");
    assert_eq!(system.rref(), Ok(()));
    assert_eq!(system.to_rows(), grid(&[&[1, 0, 2], &[0, 1, 1]]));
}

#[test]
fn rref_lifts_a_positive_row_first() {
    let mut m = matrix("0 1 5 7 ; 0 3 6 12 ; 2 0 4 6");
    assert_eq!(m.rref(), Ok(()));
    assert_eq!(m.to_rows(), grid(&[&[1, 0, 0, 1], &[0, 1, 0, 2], &[0, 0, 1, 1]]));
}

#[test]
fn rref_stops_at_a_zero_pivot() {
    let mut m = matrix("1 2 ; 2 4");
    assert_eq!(m.rref(), Err(MatrixError::ZeroPivot));
    assert_eq!(m.to_rows(), grid(&[&[1, 2], &[0, 0]]));
    let mut zeros: Matrix<Modular> = Matrix::new(2, 2);
    assert_eq!(zeros.rref(), Err(MatrixError::ZeroPivot));
    assert_eq!(zeros.to_rows(), grid(&[&[0, 0], &[0, 0]]));
}

#[test]
fn rref_refuses_more_rows_than_columns() {
    let mut m = matrix("1 2 ; 3 4 ; 5 6");
    assert_eq!(m.rref(), Err(MatrixError::DimensionMismatch));
    assert_eq!(m.to_rows(), grid(&[&[1, 2], &[3, 4], &[5, 6]]));
    let mut nothing: Matrix<Modular> = Matrix::new(0, 0);
    assert_eq!(nothing.rref(), Ok(()));
}

#[test]
fn swap_rows_exchanges_with_the_first_positive_row() {
    let mut m = matrix("0 1 ; 0 2 ; 5 6 ; 7 8");
    swap_rows(&mut m, 1);
    assert_eq!(m.to_rows(), grid(&[&[0, 1], &[5, 6], &[0, 2], &[7, 8]]));
    let mut none_positive = matrix("0 1 ; 0 2");
    swap_rows(&mut none_positive, 1);
    assert_eq!(none_positive.to_rows(), grid(&[&[0, 2], &[0, 1]]));
    let mut outside = matrix("0 1 ; 3 2");
    swap_rows(&mut outside, 2);
    assert_eq!(outside.to_rows(), grid(&[&[0, 1], &[3, 2]]));
}

#[test]
fn correct_leaves_exact_numbers_alone() {
    let mut m = matrix("0 1 ; -1 12345");
    correct(&mut m);
    assert_eq!(m.to_rows(), grid(&[&[0, 1], &[-1, 12345]]));
    assert_eq!(settle(n(-7)), n(-7));
    assert_eq!(settle(n(0)), n(0));
}

#[test]
fn apply_maps_every_entry() {
    let mut m = matrix("3 6 12 ; 2 3 6");
    m.apply(|x: Modular| x.times(x));
    assert_eq!(m.to_rows(), grid(&[&[9, 36, 144], &[4, 9, 36]]));
}

#[test]
fn from_string_reads_rows_and_entries() {
    let m = matrix("  1 2\t3 ;4   5 6  ");
    assert_eq!((m.rows(), m.cols()), (2, 3));
    assert_eq!(m.to_rows(), grid(&[&[1, 2, 3], &[4, 5, 6]]));
    let single = matrix("42");
    assert_eq!(single.to_rows(), grid(&[&[42]]));
    let no_entries = matrix("");
    assert_eq!((no_entries.rows(), no_entries.cols()), (1, 0));
    let wide_blank = matrix("1\u{3000}2\u{a0}3");
    assert_eq!(wide_blank.to_rows(), grid(&[&[1, 2, 3]]));
}

#[test]
fn from_string_refuses_bad_text() {
    let parse = Modular::parse;
    assert_eq!(Matrix::from_string("1 x ; 3 4", parse).unwrap_err(), MatrixError::Parse);
    assert_eq!(Matrix::from_string("1 2 ; 3", parse).unwrap_err(), MatrixError::Parse);
    assert_eq!(Matrix::from_string("1 2 ; 3 4 ;", parse).unwrap_err(), MatrixError::Parse);
    assert_eq!(Matrix::from_string("1,2 ; 3 4", parse).unwrap_err(), MatrixError::Parse);
}

#[test]
fn from_lines_reads_a_row_per_line() {
    let parse = Modular::parse;
    let m = Matrix::from_lines("1 2\n3 4\n", parse).unwrap();
    assert_eq!(m.to_rows(), grid(&[&[1, 2], &[3, 4]]));
    let unix_and_dos = Matrix::from_lines("1 2\r\n3 4", parse).unwrap();
    assert_eq!(unix_and_dos.to_rows(), grid(&[&[1, 2], &[3, 4]]));
    assert_eq!(Matrix::from_lines("", parse).unwrap_err(), MatrixError::Parse);
    assert_eq!(Matrix::from_lines("1 2\n\n3 4\n", parse).unwrap_err(), MatrixError::Parse);
    assert_eq!(Matrix::from_lines("1 2\n3 b\n", parse).unwrap_err(), MatrixError::Parse);
    let blank_line = Matrix::from_lines("\n", parse).unwrap();
    assert_eq!((blank_line.rows(), blank_line.cols()), (1, 0));
}

#[test]
fn blank_is_white_space() {
    for code in 0..=0x10FFFF_u32 {
        if let Some(c) = char::from_u32(code) {
            assert_eq!(juzhen::text::blank(c), c.is_whitespace(), "U+{code:04X}");
        }
    }
}

#[test]
fn split_and_tokens_cut_as_the_standard_library_does() {
    for text in ["", ";", "a;b", ";a;;b;", " 1 2 ; 3\t4\n", "1  22   333", "  ", "x"] {
        let chars: Vec<char> = text.chars().collect();
        let parts: Vec<String> =
            juzhen::text::split(&chars, ';').into_iter().map(|p| p.into_iter().collect()).collect();
        let expected: Vec<String> = text.split(';').map(|p| p.to_string()).collect();
        assert_eq!(parts, expected);
        let found: Vec<String> =
            juzhen::text::tokens(&chars).into_iter().map(|p| p.into_iter().collect()).collect();
        let words: Vec<String> = text.split_whitespace().map(|p| p.to_string()).collect();
        assert_eq!(found, words);
        assert_eq!(juzhen::text::chars_of(text), chars);
    }
}

#[test]
fn modular_arithmetic_is_exact() {
    assert_eq!(n(3).plus(n(4)), n(7));
    assert_eq!(n(3).minus(n(4)), n(-1));
    assert_eq!(n(-1).value(), MODULUS - 1);
    assert_eq!(n(i64::MIN).value(), MODULUS - 2);
    assert_eq!(n(i64::MAX).value(), 1);
    assert_eq!(Modular::new(MODULUS + 5), n(5));
    assert_eq!(n(1 << 20).times(n(1 << 20)), n(1 << 40));
    assert_eq!(n(1 << 40).value(), 512);
    assert_eq!(n(6).over(n(3)), n(2));
    assert_eq!(n(1).over(n(2)).times(n(2)), n(1));
    assert_eq!(n(5).over(n(0)), n(0));
    assert_eq!(n(5).floor(), n(5));
    assert_eq!(n(5).round(), n(5));
    assert!(n(5).same(n(5)) && !n(5).same(n(6)));
    assert!(n(5).below(n(6)) && !n(6).below(n(5)) && !n(5).below(n(5)));
    assert_eq!(Modular::zero(), n(0));
    assert_eq!(Modular::one(), n(1));
    assert_eq!(Modular::epsilon(), n(0));
}

#[test]
fn raise_is_the_power() {
    assert_eq!(raise(2, 10), 1024);
    assert_eq!(raise(2, 31), 1);
    assert_eq!(raise(3, 0), 1);
    assert_eq!(raise(0, 0), 1);
    assert_eq!(raise(0, 5), 0);
    assert_eq!(raise(7, MODULUS - 1), 1);
    assert_eq!(raise(10, 12), 1_000_000_000_000 % MODULUS);
}

#[test]
fn modular_parse_reads_decimals() {
    let parse = |text: &str| Modular::parse(text.chars().collect());
    assert_eq!(parse("0"), Some(n(0)));
    assert_eq!(parse("19"), Some(n(19)));
    assert_eq!(parse("-2"), Some(n(-2)));
    assert_eq!(parse("007"), Some(n(7)));
    assert_eq!(parse("4294967296"), Some(n(4294967296)));
    assert_eq!(parse("0.5"), Some(n(1).over(n(2))));
    assert_eq!(parse("-1.25"), Some(n(-5).over(n(4))));
    assert_eq!(parse("3.0"), Some(n(3)));
    for bad in ["", "-", ".", "1.", ".5", "1.2.3", "1e3", "+1", "--1", "1-", "a", "1 "] {
        assert_eq!(parse(bad), None, "{bad:?}");
    }
}

#[test]
fn modular_write_gives_the_digits() {
    let text = |x: Modular| x.write().into_iter().collect::<String>();
    assert_eq!(text(n(0)), "0");
    assert_eq!(text(n(7)), "7");
    assert_eq!(text(n(10)), "10");
    assert_eq!(text(n(1905)), "1905");
    assert_eq!(text(n(-1)), "2147483646");
    for value in [0, 9, 10, 99, 100, 12345, 2147483646] {
        assert_eq!(Modular::parse(n(value).write()), Some(n(value)));
    }
}

#[test]
fn to_text_puts_spaces_and_semicolons() {
    let text: String = matrix("1 2 3 ; 4 5 6").to_text(Modular::write).into_iter().collect();
    assert_eq!(text, "1 2 3;4 5 6");
    let single: String = matrix("42").to_text(Modular::write).into_iter().collect();
    assert_eq!(single, "42");
    let empty: Matrix<Modular> = Matrix::new(0, 3);
    assert_eq!(empty.to_text(Modular::write), Vec::<char>::new());
    let no_columns: Matrix<Modular> = Matrix::new(3, 0);
    let semicolons: String = no_columns.to_text(Modular::write).into_iter().collect();
    assert_eq!(semicolons, ";;");
}

#[test]
fn text_round_trip_gives_the_matrix_back() {
    for source in ["1 2 4 ; 7 5 -2 ; 3 0 9", "0.5 0 ; 0 0.5", "7", "1 2 3"] {
        let m = matrix(source);
        let text = m.to_text(Modular::write);
        let back = Matrix::from_chars(&text, Modular::parse).unwrap();
        assert_eq!(back.to_rows(), m.to_rows());
        assert_eq!((back.rows(), back.cols()), (m.rows(), m.cols()));
        let as_string: String = text.into_iter().collect();
        assert_eq!(matrix(&as_string).to_rows(), m.to_rows());
    }
}
