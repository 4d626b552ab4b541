//! The matrices filled with floating-point numbers.

use juzhen::reduce::{correct, settle, swap_rows};
use juzhen::{Matrix, MatrixError, Scalar};

#[derive(Clone, Copy, Debug, PartialEq)]
struct Real(f64);

impl Scalar for Real {
    fn zero_spec() -> Self {
        Real(0.0)
    }

    fn one_spec() -> Self {
        Real(1.0)
    }

    fn epsilon_spec() -> Self {
        Real(1e-9)
    }

    fn plus_spec(self, rhs: Self) -> Self {
        Real(self.0 + rhs.0)
    }

    fn minus_spec(self, rhs: Self) -> Self {
        Real(self.0 - rhs.0)
    }

    fn times_spec(self, rhs: Self) -> Self {
        Real(self.0 * rhs.0)
    }

    fn over_spec(self, rhs: Self) -> Self {
        Real(self.0 / rhs.0)
    }

    fn floor_spec(self) -> Self {
        Real(self.0.floor())
    }

    fn round_spec(self) -> Self {
        Real(self.0.round())
    }

    fn same_spec(self, rhs: Self) -> bool {
        self.0 == rhs.0
    }

    fn below_spec(self, rhs: Self) -> bool {
        self.0 < rhs.0
    }

    fn zero() -> Self {
        Self::zero_spec()
    }

    fn one() -> Self {
        Self::one_spec()
    }

    fn epsilon() -> Self {
        Self::epsilon_spec()
    }

    fn plus(self, rhs: Self) -> Self {
        self.plus_spec(rhs)
    }

    fn minus(self, rhs: Self) -> Self {
        self.minus_spec(rhs)
    }

    fn times(self, rhs: Self) -> Self {
        self.times_spec(rhs)
    }

    fn over(self, rhs: Self) -> Self {
        self.over_spec(rhs)
    }

    fn floor(self) -> Self {
        self.floor_spec()
    }

    fn round(self) -> Self {
        self.round_spec()
    }

    fn same(self, rhs: Self) -> bool {
        self.same_spec(rhs)
    }

    fn below(self, rhs: Self) -> bool {
        self.below_spec(rhs)
    }
}

fn read(token: Vec<char>) -> Option<Real> {
    let text: String = token.into_iter().collect();
    text.parse::<f64>().ok().map(Real)
}

fn matrix(text: &str) -> Matrix<Real> {
    Matrix::from_string(text, read).unwrap()
}

fn entries(m: &Matrix<Real>) -> Vec<Vec<f64>> {
    m.to_rows().into_iter().map(|row| row.into_iter().map(|x| x.0).collect()).collect()
}

#[test]
fn real_det_of_identity() {
    assert_eq!(matrix("1 0 ; 0 1").det(), Ok(Real(1.0)));
}

#[test]
fn real_det_of_two_by_two() {
    assert_eq!(matrix("1 2 ; 3 4").det(), Ok(Real(-2.0)));
}

#[test]
fn real_inverse_of_scaled_identity() {
    let inverse = matrix("2 0 ; 0 2").inverse().unwrap();
    assert_eq!(entries(&inverse), entries(&matrix("0.5 0 ; 0 0.5")));
    assert_eq!(entries(&inverse), vec![vec![0.5, 0.0], vec![0.0, 0.5]]);
}

#[test]
fn real_dot_two_by_two() {
    let product = matrix("1 2 ; 3 4").dot(&matrix("5 6 ; 7 8")).unwrap();
    assert_eq!(entries(&product), entries(&matrix("19 22 ; 43 50")));
}

#[test]
fn real_inverse_times_original_is_nearly_identity() {
    let given = matrix("1 2 4 ; 7 5 -2 ; 3 0 9");
    assert_eq!(given.det(), Ok(Real(-153.0)));
    let inverse = given.inverse().unwrap();
    for product in [inverse.dot(&given).unwrap(), given.dot(&inverse).unwrap()] {
        let got = entries(&product);
        for i in 0..3 {
            for j in 0..3 {
                let want = if i == j { 1.0 } else { 0.0 };
                assert!((got[i][j] - want).abs() < 1e-6, "entry {i} {j} is {}", got[i][j]);
            }
        }
    }
}

#[test]
fn real_inverse_of_singular_is_refused() {
    let with_zero_row = matrix("1 2 3 ; 0 0 0 ; 4 5 6");
    assert_eq!(with_zero_row.det(), Ok(Real(0.0)));
    assert_eq!(with_zero_row.inverse().unwrap_err(), MatrixError::Singular);
    assert_eq!(matrix("1 2 ; 2 4").inverse().unwrap_err(), MatrixError::Singular);
}

#[test]
fn real_det_expands_along_second_row() {
    assert_eq!(matrix("1 2 3 ; 4 5 6 ; 7 8 10").det(), Ok(Real(-3.0)));
    assert_eq!(matrix("7").det(), Ok(Real(7.0)));
    assert_eq!(matrix("2 0 0 0 ; 0 3 0 0 ; 0 0 4 0 ; 0 0 0 5").det(), Ok(Real(120.0)));
}

#[test]
fn real_cofactor_has_the_sign_of_its_place() {
    let m = matrix("1 2 ; 3 4");
    assert_eq!(m.cofactor(0, 0), Ok(Real(4.0)));
    assert_eq!(m.cofactor(0, 1), Ok(Real(-3.0)));
    assert_eq!(m.cofactor(1, 0), Ok(Real(-2.0)));
    assert_eq!(m.cofactor(1, 1), Ok(Real(1.0)));
}

#[test]
fn real_settle_takes_noise_off() {
    assert_eq!(settle(Real(1e-12)), Real(0.0));
    assert_eq!(settle(Real(-1e-12)), Real(0.0));
    assert!(settle(Real(-1e-12)).0.is_sign_positive());
    assert!(settle(Real(-0.0)).0.is_sign_positive());
    assert_eq!(settle(Real(2.99999999999)), Real(3.0));
    assert_eq!(settle(Real(-1.00000000001)), Real(-1.0));
    assert_eq!(settle(Real(0.5)), Real(0.5));
    assert_eq!(settle(Real(2.999)), Real(2.999));
    assert_eq!(settle(Real(1e-3)), Real(1e-3));
    assert_eq!(settle(Real(-4.25)), Real(-4.25));
}

#[test]
fn real_correct_settles_every_entry() {
    let mut m = Matrix::from_rows(vec![
        vec![Real(1e-12), Real(0.99999999999)],
        vec![Real(-0.0), Real(7.5)],
    ])
    .unwrap();
    correct(&mut m);
    assert_eq!(entries(&m), vec![vec![0.0, 1.0], vec![0.0, 7.5]]);
}

#[test]
fn real_rref_reduces_to_identity() {
    let mut m = matrix("2 4 ; 1 3");
    assert_eq!(m.rref(), Ok(()));
    assert_eq!(entries(&m), vec![vec![1.0, 0.0], vec![0.0, 1.0]]);
}

#[test]
fn real_rref_solves_a_system() {
    let mut m = matrix("1 1 3 ; 1 -1 1");
    assert_eq!(m.rref(), Ok(()));
    assert_eq!(entries(&m), vec![vec![1.0, 0.0, 2.0], vec![0.0, 1.0, 1.0]]);
}

#[test]
fn real_rref_lifts_a_positive_row_first() {
    let mut m = matrix("0 1 ; 1 0");
    assert_eq!(m.rref(), Ok(()));
    assert_eq!(entries(&m), vec![vec![1.0, 0.0], vec![0.0, 1.0]]);
}

#[test]
fn real_rref_stops_at_a_zero_pivot() {
    let mut m = matrix("1 2 ; 2 4");
    assert_eq!(m.rref(), Err(MatrixError::ZeroPivot));
    assert_eq!(entries(&m), vec![vec![1.0, 2.0], vec![0.0, 0.0]]);
    let mut negative_only = matrix("0 1 ; -1 0");
    assert_eq!(negative_only.rref(), Err(MatrixError::ZeroPivot));
    assert_eq!(entries(&negative_only), vec![vec![0.0, 1.0], vec![-1.0, 0.0]]);
}

#[test]
fn real_swap_rows_takes_the_first_positive_row() {
    let mut m = matrix("0 1 ; -3 2 ; 5 6 ; 7 8");
    swap_rows(&mut m, 1);
    assert_eq!(
        entries(&m),
        vec![vec![0.0, 1.0], vec![5.0, 6.0], vec![-3.0, 2.0], vec![7.0, 8.0]]
    );
}

#[test]
fn real_apply_maps_every_entry() {
    let mut m = matrix("3 6 12 ; 2 3 6");
    m.apply(|x: Real| Real(x.0 + 2.0));
    assert_eq!(entries(&m), vec![vec![5.0, 8.0, 14.0], vec![4.0, 5.0, 8.0]]);
}

#[test]
fn real_from_string_refuses_what_is_no_number() {
    assert_eq!(Matrix::from_string("1 x ; 3 4", read).unwrap_err(), MatrixError::Parse);
    assert_eq!(Matrix::from_string("1 2 ; 3", read).unwrap_err(), MatrixError::Parse);
    assert_eq!(Matrix::from_string("1 2 ;", read).unwrap_err(), MatrixError::Parse);
}

#[test]
fn real_from_lines_reads_a_row_per_line() {
    let m = Matrix::from_lines("1.5 2\r\n-3\t4e2\n", read).unwrap();
    assert_eq!(entries(&m), vec![vec![1.5, 2.0], vec![-3.0, 400.0]]);
    assert_eq!(Matrix::from_lines("", read).unwrap_err(), MatrixError::Parse);
    assert_eq!(Matrix::from_lines("1 2\n\n3 4\n", read).unwrap_err(), MatrixError::Parse);
}

#[test]
fn real_text_round_trip() {
    let write = |x: Real| format!("{:?}", x.0).chars().collect::<Vec<char>>();
    let m = matrix("1.5 -2 0.25 ; 1e-3 4 1000000 ; 0.1 -0 3.141592653589793");
    let text = m.to_text(write);
    let as_string: String = text.iter().collect();
    assert_eq!(as_string, "1.5 -2.0 0.25;0.001 4.0 1000000.0;0.1 -0.0 3.141592653589793");
    assert_eq!(entries(&Matrix::from_chars(&text, read).unwrap()), entries(&m));
    assert_eq!(entries(&matrix(&as_string)), entries(&m));
    let inverse = matrix("1 2 4 ; 7 5 -2 ; 3 0 9").inverse().unwrap();
    let back = Matrix::from_chars(&inverse.to_text(write), read).unwrap();
    assert_eq!(entries(&back), entries(&inverse));
}
