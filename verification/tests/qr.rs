//! The factorization and the solvers on double precision numbers.
use approx::RelativeEq;
use nalgebra::{DMatrix, DVector, Vector4};
use pivoted_qr::cholesky::CholeskyFactor;
use pivoted_qr::lls::LinearLeastSquaresDiagonalProblem;
use pivoted_qr::matrix::Matrix;
use pivoted_qr::permutation::Permutation;
use pivoted_qr::qr::{Error, PivotedQR};
use pivoted_qr::scalar::{Arithmetic, Real};
use pivoted_qr::vector::{dot, norm_squared};

/// A double precision number.
#[derive(Clone, Copy, Debug, PartialEq)]
struct Double(f64);

/// What each operation computes.
impl Arithmetic for Double {
    fn zero_spec() -> Self {
        Double(0.0)
    }

    fn one_spec() -> Self {
        Double(1.0)
    }

    fn of_u32(n: u32) -> Self {
        Double(f64::from(n))
    }

    fn epsilon_spec() -> Self {
        Double(f64::EPSILON)
    }

    fn plus(self, rhs: Self) -> Self {
        Double(self.0 + rhs.0)
    }

    fn minus(self, rhs: Self) -> Self {
        Double(self.0 - rhs.0)
    }

    fn times(self, rhs: Self) -> Self {
        Double(self.0 * rhs.0)
    }

    fn over(self, rhs: Self) -> Self {
        Double(self.0 / rhs.0)
    }

    fn negated(self) -> Self {
        Double(-self.0)
    }

    fn root(self) -> Self {
        Double(self.0.sqrt())
    }

    fn magnitude(self) -> Self {
        Double(self.0.abs())
    }

    fn vanishes(self) -> bool {
        self.0 == 0.0
    }

    fn has_minus_sign(self) -> bool {
        // the same answer for every NaN
        !self.0.is_nan() && self.0.is_sign_negative()
    }

    fn undefined(self) -> bool {
        self.0.is_nan()
    }

    fn below(self, rhs: Self) -> bool {
        self.0 < rhs.0
    }

    fn at_most(self, rhs: Self) -> bool {
        self.0 <= rhs.0
    }
}

impl Real for Double {
    fn zero() -> Self {
        Self::zero_spec()
    }

    fn one() -> Self {
        Self::one_spec()
    }

    fn from_u32(n: u32) -> Self {
        Self::of_u32(n)
    }

    fn default_epsilon() -> Self {
        Self::epsilon_spec()
    }

    fn add(self, rhs: Self) -> Self {
        self.plus(rhs)
    }

    fn sub(self, rhs: Self) -> Self {
        self.minus(rhs)
    }

    fn mul(self, rhs: Self) -> Self {
        self.times(rhs)
    }

    fn div(self, rhs: Self) -> Self {
        self.over(rhs)
    }

    fn neg(self) -> Self {
        self.negated()
    }

    fn sqrt(self) -> Self {
        self.root()
    }

    fn abs(self) -> Self {
        self.magnitude()
    }

    fn is_zero(self) -> bool {
        self.vanishes()
    }

    fn is_negative(self) -> bool {
        self.has_minus_sign()
    }

    fn is_nan(self) -> bool {
        self.undefined()
    }

    fn lt(self, rhs: Self) -> bool {
        self.below(rhs)
    }

    fn le(self, rhs: Self) -> bool {
        self.at_most(rhs)
    }
}

fn vector(entries: &[f64]) -> Vec<Double> {
    entries.iter().map(|x| Double(*x)).collect()
}

/// A matrix from its entries, column by column.
fn from_columns(nrows: usize, entries: &[f64]) -> Matrix<Double> {
    Matrix {
        nrows,
        columns: entries.chunks(nrows).map(vector).collect(),
    }
}

/// A matrix from its entries, row by row.
fn from_rows(ncols: usize, entries: &[f64]) -> Matrix<Double> {
    let nrows = entries.len() / ncols;
    Matrix {
        nrows,
        columns: (0..ncols)
            .map(|j| (0..nrows).map(|i| Double(entries[i * ncols + j])).collect())
            .collect(),
    }
}

fn dvector(v: &[Double]) -> DVector<f64> {
    DVector::from_iterator(v.len(), v.iter().map(|x| x.0))
}

/// The first `nrows` rows of a matrix.
fn dmatrix(m: &Matrix<Double>, nrows: usize) -> DMatrix<f64> {
    DMatrix::from_fn(nrows, m.columns.len(), |i, j| m.columns[j][i].0)
}

fn assert_close(found: &[Double], expected: &[f64], epsilon: f64) {
    let expected = DVector::from_column_slice(expected);
    assert!(
        dvector(found).relative_eq(&expected, epsilon, f64::EPSILON),
        "{:?} is not close to {:?}",
        found,
        expected
    );
}

fn qr_of(a: Matrix<Double>) -> PivotedQR<Double> {
    PivotedQR::new(a).ok().unwrap()
}

#[test]
fn test_pivoted_qr() {
    // Reference data was generated using the implementation from the library
    // "lmfit".
    // Also, the values were checked with SciPy's "qr" method.
    let a: Vec<f64> = (0..12).map(|i| i as f64).collect();
    let qr = qr_of(from_columns(4, &a));

    assert_eq!(qr.permutation.to_indices(), vec![2, 0, 1]);

    assert_close(&qr.column_norms, &[3.7416574, 11.2249722, 19.1311265], 1e-7);

    assert_close(&qr.r_diag, &[-19.1311265, 1.8700983, 0.0], 1e-7);

    let qr_ref = DMatrix::from_column_slice(
        4,
        3,
        &[
            1.4181667,
            0.4704375,
            0.5227084,
            0.5749792,
            -3.2407919,
            1.0401278,
            -0.4307302,
            -0.9015882,
            -11.1859592,
            0.9350492,
            1.7310553,
            0.6823183,
        ],
    );
    assert!(dmatrix(&qr.qr, 4).relative_eq(&qr_ref, 1e-7, f64::EPSILON));
}

#[test]
fn test_pivoted_qr_more_branches() {
    // This test case was crafted to hit all three
    // branches of the partial column norms
    let qr = qr_of(from_columns(
        4,
        &[
            30.0, 43.0, 34.0, 26.0, 30.0, 43.0, 34.0, 26.0, 24.0, 39.0, -10.0, -34.0,
        ],
    ));
    assert_close(
        &qr.r_diag,
        &[-67.683085036070864, -55.250741178610944, 0.00000000000001],
        f64::EPSILON,
    );
}

fn default_lls(case: usize) -> LinearLeastSquaresDiagonalProblem<Double> {
    let a = match case {
        1 => from_columns(4, &[0., 1., 2., 3., 4., 5., 6., 7., 8., 9., 10., 11.]),
        2 => from_columns(
            4,
            &[30., 43., 34., 26., 30., 43., 34., 26., 24., 39., -10., -34.],
        ),
        3 => from_rows(3, &[1., 2., -1., 0., 1., 4., 0., 0., 0.5, 0., 0., 0.]),
        _ => panic!("no such case"),
    };
    qr_of(a).into_least_squares_diagonal_problem(vector(&[1.0, 2.0, 5.0, 4.0]))
}

#[test]
fn test_into_lls() {
    let lls = default_lls(1);
    assert_close(
        &lls.qt_b,
        &[-6.272500481871799, 1.963603245291175, -0.288494026015405],
        1e-14,
    );
}

#[test]
fn test_elimate_diag_and_l() {
    let mut lls = default_lls(1);
    let qt_b = lls.qt_b.clone();
    let rhs = lls.eliminate_diag(&vector(&[1.0, 0.5, 0.0]), qt_b);
    assert_close(
        &rhs,
        &[-6.272500481871799, 1.731584982206922, 0.612416936078506],
        f64::EPSILON,
    );

    // contains L
    assert_close(
        &lls.l_diag,
        &[-19.131126469708992, 2.120676250530203, 0.666641352293790],
        f64::EPSILON,
    );

    let r_ref = DMatrix::from_row_slice(
        3,
        3,
        &[
            -19.131126469708992,
            -3.240791915633763,
            -11.185959192671376,
            -3.240791915633763,
            1.870098328848738,
            0.935049164424371,
            -11.185959192671376,
            0.824564277241393,
            -0.000000000000001,
        ],
    );
    let r = dmatrix(&lls.upper_r, 3);
    assert!(r.relative_eq(&r_ref, f64::EPSILON, f64::EPSILON));
}

#[test]
fn test_lls_x_1() {
    let mut lls = default_lls(1);
    let (x_out, _) = lls.solve_with_diagonal(&vector(&[1.0, 0.5, 0.0]), vector(&[0.0; 3]));
    assert_close(
        &x_out,
        &[0.459330143540669, 0.918660287081341, -0.287081339712919],
        1e-14,
    );
}

#[test]
fn test_lls_x_2() {
    // R is singular but L is not
    let a = from_columns(
        4,
        &[
            14., -12., 20., -11., 19., 38., -4., -11., -14., 12., -20., 11.,
        ],
    );
    let mut lls = qr_of(a).into_least_squares_diagonal_problem(vector(&[-5., 3., -2., 7.]));

    let rdiag_out: Vec<Double> = (0..3).map(|j| lls.upper_r.columns[j][j]).collect();
    assert_close(
        &rdiag_out,
        &[-44.068129073061407, 29.147349299100057, 0.],
        f64::EPSILON,
    );

    let diag = vector(&[2.772724292099739, 0.536656314599949, 0.089442719099992]);
    let (x_out, _) = lls.solve_with_diagonal(&diag, vector(&[0.0; 3]));
    assert_close(
        &x_out,
        &[-0.000277544878320, -0.046225239392197, 0.266720628065249],
        1e-14,
    );
}

#[test]
fn test_lls_zero_diagonal() {
    let lls = default_lls(3);
    assert!(lls.has_full_rank());
    let (x_out, _l) = lls.solve_with_zero_diagonal();
    assert_close(&x_out, &[87., -38., 10.], f64::EPSILON);
}

#[test]
fn test_cholesky_lower() {
    let l = from_rows(3, &[-1.0e10, 100., -1., 1., 1.0e8, 0.5, 1., 0.5, 100.]);
    let chol = CholeskyFactor {
        l: &l,
        l_diag: &vector(&[2., 1.5, 0.1]),
        lower: true,
        permutation: &Permutation::from_indices(vec![1, 0, 2]).unwrap(),
        qt_b: &vector(&[1.0, 2.0, 0.5]),
    };

    let out_mul = chol.mul_qt_b(vector(&[0.0; 3]));
    assert_close(&out_mul, &[2., 4., 2.05], f64::EPSILON);

    let out_solve = chol.solve(vector(&[1.0, 2.0, 0.5]));
    assert_close(&out_solve, &[1., 0., -5.], f64::EPSILON);
}

#[test]
fn test_cholesky_upper() {
    let l = from_rows(3, &[4., 7., 1., 123., 6., 8., 34., 34455., 9.]);
    let chol = CholeskyFactor {
        l: &l,
        l_diag: &vector(&[1234.0, -1.5, -1e120]),
        lower: false,
        permutation: &Permutation::from_indices(vec![2, 1, 0]).unwrap(),
        qt_b: &vector(&[1.0, 2.0, 0.5]),
    };

    let out_mul = chol.mul_qt_b(vector(&[0.0; 3]));
    assert_close(&out_mul, &[4., 19., 21.5], f64::EPSILON);

    let out_solve = chol.solve(vector(&[1.0, 2.0, 0.5]));
    assert_close(&out_solve, &[0.125, 0.1875, -0.06944444444444445], f64::EPSILON);
}

#[test]
fn test_column_max_norm() {
    let b = vector(&[1., 2., 3., 4.]);
    let a = from_columns(
        4,
        &[
            14., -12., 20., -11., 19., 38., -4., -11., -14., 12., -20., 11.,
        ],
    );
    let max_at_b = qr_of(a)
        .into_least_squares_diagonal_problem(b.clone())
        .max_a_t_b_scaled();
    assert_close(&[max_at_b.unwrap()], &[0.88499332], 1e-8);

    let a = from_columns(
        4,
        &[
            f64::NAN, -12., 20., -11., 19., 38., -4., -11., -14., 12., -20., 11.,
        ],
    );
    let max_at_b = qr_of(a)
        .into_least_squares_diagonal_problem(b.clone())
        .max_a_t_b_scaled();
    assert_eq!(max_at_b, None);

    let a = from_columns(4, &[0.0; 12]);
    let max_at_b = qr_of(a)
        .into_least_squares_diagonal_problem(b)
        .max_a_t_b_scaled();
    assert_eq!(max_at_b, Some(Double(0.)));
}

#[test]
fn test_a_x_norm_squared() {
    let a = from_rows(3, &[3., 6., 2., 7., 4., 3., 2., 0., 4., 5., 1., 6.]);
    let lls = qr_of(a).into_least_squares_diagonal_problem(vector(&[0.0; 4]));
    let result = lls.a_x_norm_squared(&vector(&[1., 8., 3.]));
    assert_close(&[result], &[6710.], 1e-11);
}

#[test]
fn fewer_rows_than_columns_are_refused() {
    let a = from_columns(2, &[1., 2., 3., 4., 5., 6.]);
    assert!(matches!(
        PivotedQR::new(a),
        Err(Error::ShapeConstraintFailed)
    ));
}

/// A matrix of full rank whose columns are brought to the order 1, 2, 0.
fn full_rank() -> Matrix<Double> {
    from_columns(
        4,
        &[
            1., 0.5, -0.25, 2., 7., 1., -3., 4., 2., 5., 1., 0.5,
        ],
    )
}

fn b_of_full_rank() -> Vec<Double> {
    vector(&[2., -1., 0.5, 3.])
}

fn full_rank_problem() -> LinearLeastSquaresDiagonalProblem<Double> {
    qr_of(full_rank()).into_least_squares_diagonal_problem(b_of_full_rank())
}

/// The matrix `R`, as a square matrix.
fn upper(lls: &LinearLeastSquaresDiagonalProblem<Double>) -> DMatrix<f64> {
    let n = lls.upper_r.columns.len();
    dmatrix(&lls.upper_r, n).upper_triangle()
}

/// The matrix `L`, as a square matrix.
fn lower(chol: &CholeskyFactor<Double>) -> DMatrix<f64> {
    let n = chol.l.columns.len();
    if !chol.lower {
        return dmatrix(chol.l, n).upper_triangle().transpose();
    }
    let mut l = dmatrix(chol.l, n).lower_triangle();
    l.set_diagonal(&dvector(chol.l_diag));
    l
}

/// The columns of `m` in the given order.
fn reordered(m: &DMatrix<f64>, order: &[usize]) -> DMatrix<f64> {
    DMatrix::from_fn(m.nrows(), m.ncols(), |i, j| m[(i, order[j])])
}

fn assert_same_matrix(found: &DMatrix<f64>, expected: &DMatrix<f64>, epsilon: f64) {
    assert!(
        found.relative_eq(expected, epsilon, epsilon),
        "{} is not close to {}",
        found,
        expected
    );
}

#[test]
fn permutation_of_full_rank_matrix() {
    let qr = qr_of(full_rank());
    assert_eq!(qr.permutation.to_indices(), vec![1, 2, 0]);
}

#[test]
fn a_p_is_q_r() {
    let a = full_rank();
    let qr = qr_of(full_rank());
    let order = qr.permutation.to_indices();
    for (k, c) in order.iter().enumerate() {
        // Q^T applied to the column is column k of R
        let image = qr_of(full_rank())
            .into_least_squares_diagonal_problem(a.columns[*c].clone())
            .qt_b;
        let mut column: Vec<f64> = qr.qr.columns[k].iter().map(|x| x.0).collect();
        column[k] = qr.r_diag[k].0;
        for entry in column.iter_mut().skip(k + 1) {
            *entry = 0.0;
        }
        assert_close(&image, &column[..3], 1e-14);
    }
}

#[test]
fn r_t_r_is_p_t_a_t_a_p() {
    let qr = qr_of(full_rank());
    let order = qr.permutation.to_indices();
    let ap = reordered(&dmatrix(&full_rank(), 4), &order);
    let r = upper(&full_rank_problem());
    assert_same_matrix(&(r.transpose() * r), &(ap.transpose() * ap), 1e-13);
}

#[test]
fn pivots_do_not_increase() {
    let lls = full_rank_problem();
    let r = upper(&lls);
    for k in 0..3 {
        for l in k..3 {
            let rest: f64 = (k..=l).map(|i| r[(i, l)] * r[(i, l)]).sum();
            assert!(rest <= r[(k, k)] * r[(k, k)] * (1.0 + 1e-14));
        }
    }
}

#[test]
fn column_norms_are_those_of_the_input() {
    let qr = qr_of(from_columns(2, &[3., 4., 0., 5.]));
    assert_eq!(qr.column_norms, vector(&[5., 5.]));
}

#[test]
fn first_of_equal_columns_is_the_pivot() {
    let qr = qr_of(from_columns(2, &[3., 4., 4., 3.]));
    assert_eq!(qr.permutation.to_indices(), vec![0, 1]);
    assert_eq!(qr.r_diag[0], Double(-5.0));
}

#[test]
fn negative_leading_entry_gives_positive_diagonal() {
    let qr = qr_of(from_columns(2, &[-3., 4.]));
    assert_eq!(qr.r_diag, vector(&[5.0]));
    assert_eq!(qr.qr.columns[0], vector(&[1.6, -0.8]));
}

#[test]
fn zero_matrix_has_no_reflections() {
    let qr = qr_of(from_columns(3, &[0.0; 6]));
    assert_eq!(qr.r_diag, vector(&[0.0, 0.0]));
    assert_eq!(qr.qr.columns, vec![vector(&[0.0; 3]), vector(&[0.0; 3])]);
    let lls = qr.into_least_squares_diagonal_problem(vector(&[1., 2., 3.]));
    assert_eq!(lls.qt_b, vector(&[1., 2.]));
    assert!(!lls.has_full_rank());
}

#[test]
fn matrix_without_columns() {
    let qr = qr_of(Matrix {
        nrows: 2,
        columns: vec![],
    });
    let mut lls = qr.into_least_squares_diagonal_problem(vector(&[1., 2.]));
    assert!(lls.has_full_rank());
    assert_eq!(lls.max_a_t_b_scaled(), Some(Double(0.0)));
    assert_eq!(lls.a_x_norm_squared(&vec![]), Double(0.0));
    let (x, _) = lls.solve_with_diagonal(&vec![], vec![]);
    assert!(x.is_empty());
}

#[test]
fn square_matrix_is_solved() {
    // 2 * x + y = 5, x + 3 * y = 10
    let a = from_rows(2, &[2., 1., 1., 3.]);
    let lls = qr_of(a).into_least_squares_diagonal_problem(vector(&[5., 10.]));
    let (x, _) = lls.solve_with_zero_diagonal();
    assert_close(&x, &[1., 3.], 1e-14);
}

#[test]
fn zero_diagonal_with_a_cyclic_permutation() {
    // the right hand side is A applied to (1, -2, 3)
    let a = dmatrix(&full_rank(), 4);
    let b = a * DVector::from_column_slice(&[1., -2., 3.]);
    let lls = qr_of(full_rank()).into_least_squares_diagonal_problem(vector(b.as_slice()));
    assert_eq!(lls.permutation.to_indices(), vec![1, 2, 0]);
    let (x, chol) = lls.solve_with_zero_diagonal();
    assert_close(&x, &[1., -2., 3.], 1e-13);
    assert!(!chol.lower);
}

#[test]
fn zero_diagonal_factor() {
    let lls = full_rank_problem();
    let ap = reordered(&dmatrix(&full_rank(), 4), &lls.permutation.to_indices());
    let (_, chol) = lls.solve_with_zero_diagonal();
    let l = lower(&chol);
    assert_same_matrix(&(l.clone() * l.transpose()), &(ap.transpose() * ap), 1e-13);

    let rhs = [0.5, -1.5, 2.5];
    let x = chol.solve(vector(&rhs));
    let order = chol.permutation.to_indices();
    let permuted: Vec<Double> = order.iter().map(|i| Double(rhs[*i])).collect();
    let product = l.clone() * dvector(&x);
    assert!(product.relative_eq(&dvector(&permuted), 1e-13, 1e-13));

    let out = chol.mul_qt_b(vector(&[9.0; 3]));
    let expected = l * dvector(chol.qt_b);
    assert_close(&out, expected.as_slice(), 1e-13);
}

#[test]
fn diagonal_factor_and_normal_equations() {
    let d = [0.5, -2.0, 0.0];
    let a = dmatrix(&full_rank(), 4);
    let order = full_rank_problem().permutation.to_indices();
    let dd = DMatrix::from_diagonal(&DVector::from_iterator(3, d.iter().map(|x| x * x)));
    let normal = a.transpose() * a.clone() + dd;
    let permuted = reordered(&reordered(&normal, &order).transpose(), &order);

    let mut lls = full_rank_problem();
    let (x, chol) = lls.solve_with_diagonal(&vector(&d), vector(&[0.0; 3]));
    assert!(chol.lower);
    let l = lower(&chol);
    assert_same_matrix(&(l.clone() * l.transpose()), &permuted, 1e-13);

    let left = normal * dvector(&x);
    let right = a.transpose() * dvector(&b_of_full_rank());
    assert!(left.relative_eq(&right, 1e-12, 1e-12));

    let rhs = [0.5, -1.5, 2.5];
    let y = chol.solve(vector(&rhs));
    let wanted = DVector::from_iterator(3, order.iter().map(|i| rhs[*i]));
    assert!((l.clone() * dvector(&y)).relative_eq(&wanted, 1e-13, 1e-13));

    let out = chol.mul_qt_b(vector(&[9.0; 3]));
    assert_close(&out, (l * dvector(chol.qt_b)).as_slice(), 1e-13);
}

/// The value of `|A * x - b|^2 + |D * x|^2`.
fn objective(x: &DVector<f64>, d: &DVector<f64>) -> f64 {
    let r = dmatrix(&full_rank(), 4) * x - dvector(&b_of_full_rank());
    r.norm_squared() + d.component_mul(x).norm_squared()
}

#[test]
fn solution_minimizes_the_sum_of_squares() {
    let d = DVector::from_column_slice(&[1.0, 0.0, 0.25]);
    let mut lls = full_rank_problem();
    let (x, _) = lls.solve_with_diagonal(&vector(d.as_slice()), vector(&[0.0; 3]));
    let x = dvector(&x);
    let best = objective(&x, &d);
    for c in 0..3 {
        for step in [-0.1, -1e-3, 1e-3, 0.1] {
            let mut z = x.clone();
            z[c] += step;
            assert!(objective(&z, &d) > best);
        }
    }
}

#[test]
fn solves_are_independent() {
    let d = vector(&[0.25, 3.0, 1.0]);
    let zeros = vector(&[0.0; 3]);
    let mut fresh = full_rank_problem();
    let (expected, _) = fresh.solve_with_diagonal(&d, zeros.clone());

    let mut used = full_rank_problem();
    used.solve_with_diagonal(&vector(&[7.0, 0.0, -1.0]), zeros.clone());
    used.solve_with_diagonal(&vector(&[0.0, 0.0, 0.5]), zeros.clone());
    assert_eq!(upper(&used), upper(&full_rank_problem()));
    assert_eq!(used.qt_b, full_rank_problem().qt_b);
    let (x, _) = used.solve_with_diagonal(&d, zeros);
    assert_eq!(x, expected);
    assert_eq!(used.l_diag, fresh.l_diag);
    assert_eq!(used.upper_r.columns, fresh.upper_r.columns);
}

#[test]
fn zero_diagonal_agrees_with_the_elimination_of_zeros() {
    let lls = full_rank_problem();
    let (expected, _) = lls.solve_with_zero_diagonal();
    let expected: Vec<f64> = expected.iter().map(|x| x.0).collect();
    let mut other = full_rank_problem();
    let (x, _) = other.solve_with_diagonal(&vector(&[0.0; 3]), vector(&[0.0; 3]));
    assert_close(&x, &expected, 1e-13);
}

#[test]
fn singular_matrix_without_diagonal() {
    // two equal columns and a column of zeros: the normal equations have many solutions
    let a = from_columns(2, &[3., 4., 0., 0., 3., 4.]);
    assert!(PivotedQR::new(a).is_err());
    let a = || from_columns(3, &[3., 4., 0., 0., 0., 0., 3., 4., 0.]);
    let mut lls = qr_of(a()).into_least_squares_diagonal_problem(vector(&[10., 5., 1.]));
    assert!(!lls.has_full_rank());
    let (x, _) = lls.solve_with_diagonal(&vector(&[0.0; 3]), vector(&[1.0; 3]));
    let a = dmatrix(&a(), 3);
    let left = a.transpose() * a.clone() * dvector(&x);
    let right = a.transpose() * DVector::from_column_slice(&[10., 5., 1.]);
    assert!(left.relative_eq(&right, 1e-13, 1e-13));
}

#[test]
fn zero_of_l_leaves_out_one_row() {
    // L has a zero in the second place, and the solution is found all the same
    let a = from_columns(3, &[1., 0., 0., 0., 0., 0., 1., 0., 0.]);
    let mut lls = qr_of(a).into_least_squares_diagonal_problem(vector(&[4., 0., 0.]));
    let (x, chol) = lls.solve_with_diagonal(&vector(&[1., 0., 0.]), vector(&[0.0; 3]));
    assert_eq!(chol.l_diag[1], Double(0.0));
    assert_close(&x, &[0., 0., 4.], 1e-14);
}

#[test]
fn singular_matrix_with_singular_diagonal() {
    let rows = [
        1., 0., 1., 0., 0., 1., 0., 1., 0., 0., 0., 0., 0., 0., 0., 0.,
    ];
    let (b, d) = ([1., 6., 0., 0.], [0., 1., 0., 1.]);
    let mut lls = qr_of(from_rows(4, &rows)).into_least_squares_diagonal_problem(vector(&b));
    let (x, _) = lls.solve_with_diagonal(&vector(&d), vector(&[0.0; 4]));
    assert_close(&[x[1], x[3]], &[2., 2.], 1e-14);
    assert_close(&[Double(x[0].0 + x[2].0)], &[1.], 1e-14);
    let x = dvector(&x);
    let residual = DMatrix::from_row_slice(4, 4, &rows) * x.clone()
        - DVector::from_column_slice(&b);
    let damped = DVector::from_column_slice(&d).component_mul(&x);
    let value = residual.norm_squared() + damped.norm_squared();
    assert_close(&[Double(value)], &[12.], 1e-13);
}

#[test]
fn diagonal_makes_a_singular_problem_regular() {
    let a = from_columns(3, &[1., 0., 0., 0., 0., 0., 1., 0., 0.]);
    let mut lls = qr_of(a).into_least_squares_diagonal_problem(vector(&[4., 0., 0.]));
    assert!(!lls.has_full_rank());
    let (x, chol) = lls.solve_with_diagonal(&vector(&[1., 1., 1.]), vector(&[0.0; 3]));
    assert!(chol.l_diag.iter().all(|d| d.0 != 0.0));
    assert_close(&x, &[4. / 3., 0., 4. / 3.], 1e-14);
}

#[test]
fn zero_diagonal_of_a_singular_matrix() {
    // A * x = (4, 0) is the point of the range of A that is closest to b
    let a = from_columns(2, &[1., 0., 1., 0.]);
    let lls = qr_of(a).into_least_squares_diagonal_problem(vector(&[4., 7.]));
    let (x, _) = lls.solve_with_zero_diagonal();
    assert_close(&x, &[4., 0.], 1e-14);
}

#[test]
fn zero_diagonal_after_another_solve() {
    let fresh = full_rank_problem();
    let mut used = full_rank_problem();
    used.solve_with_diagonal(&vector(&[7.0, 0.0, -1.0]), vector(&[0.0; 3]));
    let (expected, _) = fresh.solve_with_zero_diagonal();
    let (x, _) = used.solve_with_zero_diagonal();
    assert_eq!(x, expected);
}

#[test]
fn qt_b_is_the_projection_of_b() {
    let lls = full_rank_problem();
    let (x, _) = lls.solve_with_zero_diagonal();
    let b = dvector(&b_of_full_rank());
    let residual = dmatrix(&full_rank(), 4) * dvector(&x) - b.clone();
    let expected = b.norm_squared() - residual.norm_squared();
    let found = dvector(&lls.qt_b).norm_squared();
    assert_close(&[Double(found)], &[expected], 1e-13);
    assert!(found < b.norm_squared());
}

#[test]
fn qt_b_of_a_square_matrix_is_as_long_as_b() {
    let a = from_rows(2, &[2., 1., 1., 3.]);
    let lls = qr_of(a).into_least_squares_diagonal_problem(vector(&[5., 10.]));
    assert_close(&[Double(dvector(&lls.qt_b).norm_squared())], &[125.], 1e-13);
}

#[test]
fn qt_b_of_an_orthogonal_vector_is_zero() {
    let a = from_columns(3, &[3., 4., 0., 4., -3., 0.]);
    let lls = qr_of(a).into_least_squares_diagonal_problem(vector(&[0., 0., 2.]));
    assert_close(&lls.qt_b, &[0., 0.], 1e-15);
}

#[test]
fn length_of_cholesky_solutions() {
    let a = dmatrix(&full_rank(), 4);
    let v = [0.5, -1.5, 2.5];
    let rhs = DVector::from_column_slice(&v);

    let d = [0.5, -2.0, 0.0];
    let dd = DMatrix::from_diagonal(&DVector::from_iterator(3, d.iter().map(|x| x * x)));
    let normal = a.transpose() * a.clone() + dd;
    let expected = rhs.dot(&normal.lu().solve(&rhs).unwrap());
    let mut lls = full_rank_problem();
    let (_, chol) = lls.solve_with_diagonal(&vector(&d), vector(&[0.0; 3]));
    let w = dvector(&chol.solve(vector(&v)));
    assert_close(&[Double(w.norm_squared())], &[expected], 1e-12);

    let normal = a.transpose() * a;
    let expected = rhs.dot(&normal.lu().solve(&rhs).unwrap());
    let lls = full_rank_problem();
    let (_, chol) = lls.solve_with_zero_diagonal();
    let w = dvector(&chol.solve(vector(&v)));
    assert_close(&[Double(w.norm_squared())], &[expected], 1e-12);
}

#[test]
fn scaled_maximum_does_not_change_with_the_columns() {
    let max = full_rank_problem().max_a_t_b_scaled().unwrap().0;
    assert!(0.0 <= max && max <= dvector(&b_of_full_rank()).norm());
    let mut a = full_rank();
    for (column, s) in a.columns.iter_mut().zip([2.0, -0.5, 3.0].iter()) {
        for entry in column.iter_mut() {
            entry.0 *= s;
        }
    }
    let b: Vec<Double> = b_of_full_rank().iter().map(|x| Double(-3.0 * x.0)).collect();
    let lls = qr_of(a).into_least_squares_diagonal_problem(b);
    assert_close(&[lls.max_a_t_b_scaled().unwrap()], &[3.0 * max], 1e-13);
}

#[test]
fn scaled_maximum_of_a_multiple_of_a_column() {
    let b: Vec<Double> = full_rank().columns[2].iter().map(|x| Double(-2.0 * x.0)).collect();
    let length = dvector(&b).norm();
    let lls = qr_of(full_rank()).into_least_squares_diagonal_problem(b);
    assert_close(&[lls.max_a_t_b_scaled().unwrap()], &[length], 1e-13);
}

#[test]
fn more_damping_makes_d_x_shorter() {
    let d = DVector::from_column_slice(&[1.0, 0.5, 2.0]);
    let mut lls = full_rank_problem();
    let mut previous: Option<(f64, f64)> = None;
    for s in [0.1, 0.5, 1.0, 4.0, 20.0] {
        let diag = vector((d.clone() * s).as_slice());
        let (x, _) = lls.solve_with_diagonal(&diag, vector(&[0.0; 3]));
        let x = dvector(&x);
        let damped = d.component_mul(&x).norm();
        let residual = (dmatrix(&full_rank(), 4) * x - dvector(&b_of_full_rank())).norm();
        if let Some((length, distance)) = previous {
            assert!(damped < length);
            assert!(residual > distance);
        }
        previous = Some((damped, residual));
    }
}

#[test]
fn signs_of_the_diagonal_do_not_matter() {
    let mut lls = full_rank_problem();
    let (x, _) = lls.solve_with_diagonal(&vector(&[1.0, -0.5, 2.0]), vector(&[0.0; 3]));
    let expected: Vec<f64> = x.iter().map(|x| x.0).collect();
    let (x, _) = lls.solve_with_diagonal(&vector(&[-1.0, 0.5, 2.0]), vector(&[0.0; 3]));
    assert_close(&x, &expected, 1e-14);
}

#[test]
fn cholesky_upper_stops_at_a_zero() {
    let l = from_rows(2, &[2., 1., 0., 0.]);
    let chol = CholeskyFactor {
        l: &l,
        l_diag: &vector(&[2., 0.]),
        lower: false,
        permutation: &Permutation::from_indices(vec![0, 1]).unwrap(),
        qt_b: &vector(&[1.0, 2.0]),
    };
    assert_eq!(chol.solve(vector(&[4.0, 7.0])), vector(&[2.0, 7.0]));
}

#[test]
fn norm_of_a_x() {
    let x = [0.5, -1.0, 2.0];
    let ax = dmatrix(&full_rank(), 4) * DVector::from_column_slice(&x);
    let result = full_rank_problem().a_x_norm_squared(&vector(&x));
    assert_close(&[result], &[ax.norm_squared()], 1e-12);
}

#[test]
fn scaled_maximum_of_a_t_b() {
    let a = dmatrix(&full_rank(), 4);
    let b = dvector(&b_of_full_rank());
    let expected = (0..3)
        .map(|c| a.column(c).dot(&b).abs() / a.column(c).norm())
        .fold(0.0, f64::max);
    let max = full_rank_problem().max_a_t_b_scaled().unwrap();
    assert_close(&[max], &[expected], 1e-14);
}

#[test]
fn column_without_norm_counts_as_zero() {
    let a = from_columns(2, &[0., 0., 3., 4.]);
    let lls = qr_of(a).into_least_squares_diagonal_problem(vector(&[1., 2.]));
    assert_close(&[lls.max_a_t_b_scaled().unwrap()], &[2.2], 1e-15);
}

#[test]
fn undefined_quotient_gives_none() {
    let lls = LinearLeastSquaresDiagonalProblem {
        qt_b: vector(&[1.0]),
        upper_r: from_columns(1, &[f64::INFINITY]),
        l_diag: vector(&[1.0]),
        permutation: Permutation::from_indices(vec![0]).unwrap(),
        column_norms: vector(&[f64::INFINITY]),
    };
    assert_eq!(lls.max_a_t_b_scaled(), None);
}

#[test]
fn indices_of_permutations() {
    let p = Permutation::from_indices(vec![3, 1, 0, 2]).unwrap();
    assert_eq!(p.to_indices(), vec![3, 1, 0, 2]);
    assert!(Permutation::from_indices(vec![]).is_some());
    assert!(Permutation::from_indices(vec![0, 0]).is_none());
    assert!(Permutation::from_indices(vec![1, 2]).is_none());
}

/// Numbers whose products and sums are rounded.
fn uneven(n: usize, seed: f64) -> Vec<f64> {
    (0..n)
        .map(|i| ((i as f64 + seed) * 1.37).sin() / (0.3 + i as f64))
        .collect()
}

#[test]
fn dot_products_are_rounded_as_those_of_dynamic_vectors() {
    for n in 0..40 {
        let (x, y) = (uneven(n, 0.1), uneven(n, 2.7));
        let expected = DVector::from_column_slice(&x).dot(&DVector::from_column_slice(&y));
        assert_eq!(dot(&vector(&x), &vector(&y), 0, n), Double(expected));
        let lo = n / 3;
        let expected =
            DVector::from_column_slice(&x[lo..]).dot(&DVector::from_column_slice(&y[lo..]));
        assert_eq!(dot(&vector(&x), &vector(&y), lo, n), Double(expected));
    }
}

#[test]
fn lengths_are_rounded_as_those_of_fixed_vectors() {
    for seed in 0..20 {
        let x = uneven(4, seed as f64);
        let expected = Vector4::from_column_slice(&x).norm_squared();
        assert_eq!(norm_squared(&vector(&x)), Double(expected));
        let qr = qr_of(from_columns(4, &x));
        assert_eq!(qr.column_norms, vector(&[expected.sqrt()]));
    }
    let x = uneven(19, 0.4);
    let expected = DVector::from_column_slice(&x).norm_squared();
    assert_eq!(norm_squared(&vector(&x)), Double(expected));
    let qr = qr_of(from_columns(19, &x));
    assert_eq!(qr.column_norms, vector(&[expected.sqrt()]));
}

#[test]
fn columns_hold_householder_vectors() {
    let qr = qr_of(full_rank());
    for (j, column) in qr.qr.columns.iter().enumerate() {
        let w = dvector(&column[j..]);
        assert!(1.0 <= w[0] && w[0] <= 2.0);
        assert_close(&[Double(w.norm_squared())], &[2.0 * w[0]], 1e-14);
    }
    let qr = qr_of(from_columns(3, &[3., 4., 0., 0., 0., 0.]));
    assert_eq!(qr.r_diag[1], Double(0.0));
    assert_eq!(qr.qr.columns[1][1..], vector(&[0.0, 0.0])[..]);
}

#[test]
fn elimination_of_zeros_leaves_r() {
    let mut lls = full_rank_problem();
    let r = upper(&lls);
    let rhs = lls.eliminate_diag(&vector(&[0.0; 3]), vector(&[1., 2., 3.]));
    assert_eq!(rhs, vector(&[1., 2., 3.]));
    assert_eq!(dvector(&lls.l_diag), r.diagonal());
    let (_, chol) = lls.solve_with_diagonal(&vector(&[0.0; 3]), vector(&[0.0; 3]));
    assert_eq!(lower(&chol), r.transpose());
}

#[test]
fn elimination_does_not_make_the_right_hand_side_longer() {
    let mut lls = full_rank_problem();
    let rhs = vector(&[1., -2., 3.]);
    let length = dvector(&rhs).norm();
    let result = lls.eliminate_diag(&vector(&[0.5, 2.0, -1.0]), rhs);
    assert!(dvector(&result).norm() < length);
}

#[test]
fn first_diagonal_entry_of_l() {
    let mut lls = full_rank_problem();
    let r = lls.upper_r.columns[0][0].0;
    let d = [0.5, -2.0, 1.0];
    let first = d[lls.permutation.to_indices()[0]];
    lls.eliminate_diag(&vector(&d), vector(&[0.0; 3]));
    let l = lls.l_diag[0].0;
    assert_close(&[Double(l * l)], &[r * r + first * first], 1e-13);
}

#[test]
fn solve_undoes_mul_qt_b() {
    let mut lls = full_rank_problem();
    let order = lls.permutation.to_indices();
    let expected: Vec<f64> = lls.qt_b.iter().map(|x| x.0).collect();
    let scatter = |y: Vec<Double>| {
        let mut v = y.clone();
        for (k, c) in order.iter().enumerate() {
            v[*c] = y[k];
        }
        v
    };
    let (_, chol) = lls.solve_with_zero_diagonal();
    let v = scatter(chol.mul_qt_b(vector(&[0.0; 3])));
    assert_close(&chol.solve(v), &expected, 1e-13);
    let (_, chol) = lls.solve_with_diagonal(&vector(&[0.5, 0.0, 2.0]), vector(&[0.0; 3]));
    let v = scatter(chol.mul_qt_b(vector(&[0.0; 3])));
    assert_close(&chol.solve(v), &expected, 1e-13);
}

#[test]
fn length_of_a_x_with_four_columns() {
    // the identity, so that R * P^T * x has the entries of x up to their order and sign
    let mut entries = [0.0; 16];
    for i in 0..4 {
        entries[5 * i] = 1.0;
    }
    let lls = qr_of(from_columns(4, &entries))
        .into_least_squares_diagonal_problem(vector(&[0.0; 4]));
    let x = uneven(4, 0.9);
    let expected = Vector4::from_column_slice(&x).norm_squared();
    assert_eq!(lls.permutation.to_indices(), vec![0, 1, 2, 3]);
    assert_eq!(lls.a_x_norm_squared(&vector(&x)), Double(expected));
}
