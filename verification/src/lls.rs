//! Linear least squares problems with a diagonal matrix as parameter.
use vstd::prelude::*;
use crate::cholesky::{gather, CholeskyFactor};
use crate::givens::{
    eliminate_entries, rotate_rows, rotate_spec, rotation, rotation_spec, with_row, Elimination,
};
use crate::matrix::{has_rows, Matrix};
use crate::permutation::{is_permutation, Permutation};
use crate::scalar::{Arithmetic, Real};
use crate::triangular::{
    solve_transposed_lower, solve_upper, transposed_lower_solution, upper_solution,
};
use crate::vector::{axpy, copy, dot, dot_spec, fill, norm_squared, norm_squared_spec};

verus! {

/// Parametrized linear least squares problem for the LM algorithm.
///
/// The problem is to find the `x` that minimizes
/// `|A * x - b|^2 + |D * x|^2` for an `m` by `n` matrix `A`, a diagonal matrix `D` and
/// a vector `b`. Everything except the diagonal matrix `D` is considered fixed, and the
/// problem can be solved efficiently for a sequence of diagonal matrices.
///
/// An instance is created by first computing a pivoted QR decomposition of `A`, and then using
/// [`into_least_squares_diagonal_problem`](crate::qr::PivotedQR::into_least_squares_diagonal_problem).
pub struct LinearLeastSquaresDiagonalProblem<F> {
    /// The first `n` entries of `Q^T * b`.
    pub qt_b: Vec<F>,
    /// The upper part of `R`, also used to store the strictly lower part of `L`.
    pub upper_r: Matrix<F>,
    /// The diagonal entries of `L`.
    pub l_diag: Vec<F>,
    /// Entry `i` specifies which column of the identity matrix is column `i` of `P`.
    pub permutation: Permutation,
    /// The norms of the columns of `A`.
    pub column_norms: Vec<F>,
}

/// What a least squares problem consists of.
#[verifier::ext_equal]
pub struct LeastSquares<F> {
    /// The first `n` entries of `Q^T * b`.
    pub qt_b: Seq<F>,
    /// The columns of a matrix with the upper part of `R`, and below it the strictly lower part of `L`.
    pub columns: Seq<Seq<F>>,
    /// The diagonal entries of `L`.
    pub l_diag: Seq<F>,
    /// The positions of the columns of `R` in `A`.
    pub permutation: Seq<usize>,
    /// The norms of the columns of `A`.
    pub column_norms: Seq<F>,
}

impl<F> LeastSquares<F> {
    /// The parts fit together: the matrix has `m` rows, and no more columns than rows.
    pub open spec fn wf(self, m: int) -> bool {
        let n = self.columns.len() as int;
        &&& n <= m
        &&& has_rows(self.columns, m)
        &&& self.qt_b.len() == n
        &&& self.l_diag.len() == n
        &&& is_permutation(self.permutation, n)
        &&& self.column_norms.len() == n
    }
}

/// Whether `x = P * y`: entry `i` of `permutation` is the row in which column `i` of `P` holds its one.
pub open spec fn scattered<F>(permutation: Seq<usize>, y: Seq<F>, x: Seq<F>) -> bool {
    &&& x.len() == permutation.len()
    &&& forall|j: int| 0 <= j < y.len() ==> x[#[trigger] permutation[j] as int] == y[j]
}

/// The columns with the part above the diagonal copied to the rows below it, up to the last
/// row that the part above the diagonal reaches.
pub open spec fn mirrored<F>(columns: Seq<Seq<F>>) -> Seq<Seq<F>> {
    Seq::new(
        columns.len(),
        |j: int|
            Seq::new(
                columns[j].len(),
                |i: int|
                    if j < i < columns.len() {
                        columns[i][j]
                    } else {
                        columns[j][i]
                    },
            ),
    )
}

/// The diagonal of the matrix with the given columns.
pub open spec fn diagonal_of<F>(columns: Seq<Seq<F>>) -> Seq<F> {
    Seq::new(columns.len(), |j: int| columns[j][j])
}

/// The elimination of the diagonal matrix with the entries `diag` from the problem `p`, with
/// the right hand side `rhs`.
pub open spec fn elimination<F: Arithmetic>(
    p: LeastSquares<F>,
    diag: Seq<F>,
    rhs: Seq<F>,
) -> Elimination<F> {
    eliminate_entries(
        Elimination {
            columns: mirrored(p.columns),
            row: p.l_diag,
            rhs: rhs,
            carry: F::zero_spec(),
        },
        gather(p.permutation, diag),
        diagonal_of(p.columns),
        p.columns.len() as int,
    )
}

/// The problem `p` after the elimination of the diagonal matrix with the entries `diag`.
pub open spec fn eliminated<F: Arithmetic>(p: LeastSquares<F>, diag: Seq<F>) -> LeastSquares<F> {
    let e = elimination(p, diag, p.qt_b);
    LeastSquares { columns: e.columns, l_diag: e.row, ..p }
}

/// The solution of `L^T * y = rhs` after the elimination of the diagonal matrix with the entries
/// `diag` from the problem `p`. The entries are in the order of the columns of `R`. An entry is
/// zero where the diagonal entry of `L` is.
pub open spec fn solution_with_diagonal<F: Arithmetic>(
    p: LeastSquares<F>,
    diag: Seq<F>,
) -> Seq<F> {
    let e = elimination(p, diag, p.qt_b);
    transposed_lower_solution(e.columns, e.row, e.rhs, 0, p.columns.len() as int)
}

/// The solution of `R * y = Q^T * b` for the problem `p`. The entries are in the order of the
/// columns of `R`. An entry is zero where the diagonal entry of `R` is.
pub open spec fn solution_with_zero_diagonal<F: Arithmetic>(p: LeastSquares<F>) -> Seq<F> {
    upper_solution(p.columns, p.qt_b, p.columns.len() as int)
}

/// The largest of the first `k` of the quotients `|(R^T * Q^T * b)[j]| / |A * P * e[j]|`, or
/// `None` where one of them is undefined. The quotient counts as zero where the norm is zero.
pub open spec fn max_scaled<F: Arithmetic>(p: LeastSquares<F>, k: int) -> Option<F>
    decreases k,
{
    if k <= 0 {
        Some(F::zero_spec())
    } else {
        let scale = p.column_norms[p.permutation[k - 1] as int];
        let sum = dot_spec(p.columns[k - 1], p.qt_b, 0, k);
        let scaled = sum.magnitude().over(scale);
        match max_scaled(p, k - 1) {
            None => None,
            Some(max) => if scale.vanishes() {
                Some(max)
            } else if sum.undefined() || scale.undefined() || scaled.undefined() {
                None
            } else if max.below(scaled) {
                Some(scaled)
            } else {
                Some(max)
            },
        }
    }
}

/// The sum of the terms `i`, ..., `k - 1` of row `i` of `R * P^T * x`.
pub open spec fn upper_row_sum<F: Arithmetic>(p: LeastSquares<F>, x: Seq<F>, i: int, k: int) -> F
    decreases k,
{
    if k <= i || k <= 0 {
        F::zero_spec()
    } else {
        x[p.permutation[k - 1] as int].times(p.columns[k - 1][i]).plus(
            upper_row_sum(p, x, i, k - 1),
        )
    }
}

/// The vector `R * P^T * x`.
pub open spec fn upper_product<F: Arithmetic>(p: LeastSquares<F>, x: Seq<F>) -> Seq<F> {
    Seq::new(p.columns.len(), |i: int| upper_row_sum(p, x, i, p.columns.len() as int))
}

impl<F> View for LinearLeastSquaresDiagonalProblem<F> {
    type V = LeastSquares<F>;

    open spec fn view(&self) -> LeastSquares<F> {
        LeastSquares {
            qt_b: self.qt_b@,
            columns: self.upper_r@,
            l_diag: self.l_diag@,
            permutation: self.permutation@,
            column_norms: self.column_norms@,
        }
    }
}

impl<F: Real> LinearLeastSquaresDiagonalProblem<F> {
    /// The parts of the problem fit together.
    pub open spec fn wf(&self) -> bool {
        self@.wf(self.upper_r.nrows as int)
    }

    /// Compute the scaled maximum of the dot products between `b` and the columns of `A`.
    ///
    /// It computes the maximum of `|(A^T * b)[i]| / |A * e[i]|` over all columns `i`.
    ///
    /// A fraction with column norm zero is counted as zero. If any of the computations are nan,
    /// `None` is returned.
    pub fn max_a_t_b_scaled(&self) -> (r: Option<F>)
        requires
            self.wf(),
        ensures
            r == max_scaled(self@, self@.columns.len() as int),
    {
        let n: usize = self.upper_r.ncols();
        let mut max: F = F::zero();
        let mut j: usize = 0;
        while j < n
            invariant
                self.wf(),
                n == self@.columns.len(),
                j <= n,
                max_scaled(self@, j as int) == Some(max),
            decreases n - j,
        {
            assert(self.upper_r@[j as int].len() == self.upper_r.nrows);
            let scale: F = self.column_norms[self.permutation.entry(j)];
            if !scale.is_zero() {
                let sum: F = dot(&self.upper_r.columns[j], &self.qt_b, 0, j + 1);
                let scaled: F = sum.abs().div(scale);
                if sum.is_nan() || scale.is_nan() || scaled.is_nan() {
                    proof {
                        lemma_max_scaled_none(self@, j as int + 1, n as int);
                    }
                    return None;
                }
                if max.lt(scaled) {
                    max = scaled;
                }
            }
            j += 1;
        }
        Some(max)
    }

    /// Compute `|A * x|^2 = x^T * A^T * A * x`.
    pub fn a_x_norm_squared(&self, x: &Vec<F>) -> (r: F)
        requires
            self.wf(),
            x@.len() == self@.columns.len(),
        ensures
            r == norm_squared_spec(upper_product(self@, x@)),
    {
        let n: usize = self.upper_r.ncols();
        let mut product: Vec<F> = copy(x);
        fill(&mut product, 0, n, F::zero());
        let mut k: usize = 0;
        while k < n
            invariant
                self.wf(),
                n == self@.columns.len(),
                x@.len() == n,
                product@.len() == n,
                k <= n,
                forall|i: int|
                    0 <= i < n ==> #[trigger] product@[i] == upper_row_sum(self@, x@, i, k as int),
            decreases n - k,
        {
            assert(self.upper_r@[k as int].len() == self.upper_r.nrows);
            axpy(&mut product, x[self.permutation.entry(k)], &self.upper_r.columns[k], 0, k + 1);
            k += 1;
        }
        assert(product@ =~= upper_product(self@, x@));
        norm_squared(&product)
    }

    /// Whether `R` has full rank, that is, no zero on its diagonal.
    pub fn has_full_rank(&self) -> (r: bool)
        requires
            self.wf(),
        ensures
            r <==> forall|j: int|
                0 <= j < self@.columns.len() ==> !(#[trigger] self@.columns[j])[j].vanishes(),
    {
        let n: usize = self.upper_r.ncols();
        let mut j: usize = 0;
        while j < n
            invariant
                self.wf(),
                n == self@.columns.len(),
                j <= n,
                forall|k: int| 0 <= k < j ==> !(#[trigger] self@.columns[k])[k].vanishes(),
            decreases n - j,
        {
            assert(self@.columns[j as int].len() == self.upper_r.nrows);
            if self.upper_r.columns[j][j].is_zero() {
                return false;
            }
            j += 1;
        }
        true
    }

    /// The vector `P * y`.
    fn scatter(&self, y: &Vec<F>) -> (x: Vec<F>)
        requires
            self.wf(),
            y@.len() == self@.columns.len(),
        ensures
            scattered(self@.permutation, y@, x@),
    {
        let n: usize = self.upper_r.ncols();
        let mut x: Vec<F> = copy(y);
        let mut j: usize = 0;
        while j < n
            invariant
                self.wf(),
                n == self@.columns.len(),
                y@.len() == n,
                x@.len() == n,
                j <= n,
                forall|k: int|
                    0 <= k < j ==> x@[#[trigger] self@.permutation[k] as int] == y@[k],
            decreases n - j,
        {
            x[self.permutation.entry(j)] = y[j];
            j += 1;
        }
        x
    }

    /// Copies the part of the matrix above the diagonal to the rows below it.
    fn mirror(&mut self)
        requires
            old(self).wf(),
        ensures
            final(self).wf(),
            final(self).upper_r.nrows == old(self).upper_r.nrows,
            final(self)@ == (LeastSquares { columns: mirrored(old(self)@.columns), ..old(self)@ }),
    {
        let n: usize = self.upper_r.ncols();
        let ghost before = self@;
        let ghost m = self.upper_r.nrows;
        let mut j: usize = 0;
        while j < n
            invariant
                self.wf(),
                before.wf(m as int),
                self.upper_r.nrows == m,
                n == before.columns.len(),
                j <= n,
                self@ == (LeastSquares { columns: self@.columns, ..before }),
                self@.columns.len() == n,
                forall|k: int|
                    0 <= k < n ==> #[trigger] self@.columns[k] == if k < j {
                        mirrored(before.columns)[k]
                    } else {
                        before.columns[k]
                    },
            decreases n - j,
        {
            let ghost reached = self@.columns;
            let mut i: usize = j + 1;
            while i < n
                invariant
                    self.wf(),
                    before.wf(m as int),
                    self.upper_r.nrows == m,
                    n == before.columns.len(),
                    j < i <= n,
                    self@ == (LeastSquares { columns: self@.columns, ..before }),
                    self@.columns.len() == n,
                    reached.len() == n,
                    forall|k: int|
                        0 <= k < n && k != j ==> #[trigger] self@.columns[k] == reached[k],
                    forall|k: int| j <= k < n ==> #[trigger] reached[k] == before.columns[k],
                    self@.columns[j as int].len() == m,
                    forall|p: int|
                        0 <= p < m ==> #[trigger] self@.columns[j as int][p] == if j < p < i {
                            before.columns[p][j as int]
                        } else {
                            before.columns[j as int][p]
                        },
                decreases n - i,
            {
                assert(self@.columns[i as int] == before.columns[i as int]);
                assert(self@.columns[i as int].len() == m);
                let ghost columns = self@.columns;
                let entry: F = self.upper_r.columns[i][j];
                self.upper_r.columns[j][i] = entry;
                assert(self@.columns =~= columns.update(
                    j as int,
                    columns[j as int].update(i as int, entry),
                ));
                i += 1;
            }
            assert(self@.columns[j as int] =~= mirrored(before.columns)[j as int]);
            j += 1;
        }
        assert(self@.columns =~= mirrored(before.columns));
    }

    /// Rotates row `k` of `R` with the row that is held in `l_diag`. The right hand side of
    /// that row is `carry`, and the new one is returned.
    fn rotate(&mut self, rhs: &mut Vec<F>, carry: F, k: usize) -> (r: F)
        requires
            old(self).wf(),
            k < old(self)@.columns.len(),
            old(rhs)@.len() == old(self)@.columns.len(),
        ensures
            final(self).wf(),
            final(self).upper_r.nrows == old(self).upper_r.nrows,
            final(rhs)@.len() == old(rhs)@.len(),
            ({
                let e = rotate_spec(
                    Elimination {
                        columns: old(self)@.columns,
                        row: old(self)@.l_diag,
                        rhs: old(rhs)@,
                        carry,
                    },
                    k as int,
                );
                &&& final(self)@ == (LeastSquares {
                    columns: e.columns,
                    l_diag: e.row,
                    ..old(self)@
                })
                &&& final(rhs)@ == e.rhs
                &&& r == e.carry
            }),
    {
        let n: usize = self.upper_r.ncols();
        let ghost m = self.upper_r.nrows;
        let ghost before = self@;
        let ghost start = Elimination {
            columns: before.columns,
            row: before.l_diag,
            rhs: rhs@,
            carry,
        };
        let d: F = self.l_diag[k];
        if d.is_zero() {
            return carry;
        }
        assert(before.columns[k as int].len() == m);
        let (sin, cos) = rotation(self.upper_r.columns[k][k], d);
        let ghost column = before.columns[k as int];
        let ghost goal = rotate_spec(start, k as int);
        let diagonal: F = cos.mul(self.upper_r.columns[k][k]).add(sin.mul(d));
        self.upper_r.columns[k][k] = diagonal;
        let entry: F = cos.mul(rhs[k]).add(sin.mul(carry));
        let rest: F = sin.neg().mul(rhs[k]).add(cos.mul(carry));
        rhs[k] = entry;
        assert(self@.columns =~= before.columns.update(
            k as int,
            column.update(k as int, diagonal),
        ));
        let mut i: usize = k + 1;
        while i < n
            invariant
                k < i <= n,
                n <= m,
                before.wf(m as int),
                n == before.columns.len(),
                self.wf(),
                self.upper_r.nrows == m,
                column == before.columns[k as int],
                goal == rotate_spec(start, k as int),
                start.columns == before.columns,
                start.row == before.l_diag,
                !start.row[k as int].vanishes(),
                (sin, cos) == rotation_spec(column[k as int], start.row[k as int]),
                self@ == (LeastSquares {
                    columns: self@.columns,
                    l_diag: self@.l_diag,
                    ..before
                }),
                self@.columns.len() == n,
                forall|p: int|
                    0 <= p < n && p != k ==> #[trigger] self@.columns[p] == before.columns[p],
                forall|p: int|
                    0 <= p < m ==> #[trigger] self@.columns[k as int][p] == if p < i {
                        goal.columns[k as int][p]
                    } else {
                        column[p]
                    },
                forall|p: int|
                    0 <= p < n ==> #[trigger] self@.l_diag[p] == if p < i {
                        goal.row[p]
                    } else {
                        start.row[p]
                    },
            decreases n - i,
        {
            let ghost columns = self@.columns;
            assert(columns[k as int].len() == m);
            let below: F = self.upper_r.columns[k][i];
            let in_row: F = self.l_diag[i];
            let entry: F = cos.mul(below).add(sin.mul(in_row));
            self.l_diag[i] = sin.neg().mul(below).add(cos.mul(in_row));
            self.upper_r.columns[k][i] = entry;
            assert(self@.columns =~= columns.update(
                k as int,
                columns[k as int].update(i as int, entry),
            ));
            i += 1;
        }
        assert(self@.columns[k as int] =~= goal.columns[k as int]);
        assert(self@.columns =~= goal.columns);
        assert(self@.l_diag =~= goal.row);
        assert(rhs@ =~= goal.rhs);
        rest
    }

    /// Eliminates the diagonal matrix with the entries `diag` from the problem by rotations.
    ///
    /// The strictly lower part of the matrix and `l_diag` then hold `L`, and the right hand side
    /// `rhs`, rotated likewise, is returned.
    pub fn eliminate_diag(&mut self, diag: &Vec<F>, rhs: Vec<F>) -> (r: Vec<F>)
        requires
            old(self).wf(),
            diag@.len() == old(self)@.columns.len(),
            rhs@.len() == old(self)@.columns.len(),
        ensures
            final(self).wf(),
            final(self).upper_r.nrows == old(self).upper_r.nrows,
            r@.len() == rhs@.len(),
            ({
                let e = elimination(old(self)@, diag@, rhs@);
                &&& final(self)@ == (LeastSquares {
                    columns: e.columns,
                    l_diag: e.row,
                    ..old(self)@
                })
                &&& r@ == e.rhs
            }),
    {
        let n: usize = self.upper_r.ncols();
        let ghost before = self@;
        let ghost m = self.upper_r.nrows;
        let mut rhs = rhs;
        let mut original: Vec<F> = Vec::new();
        let mut j: usize = 0;
        while j < n
            invariant
                self.wf(),
                self@ == before,
                m == self.upper_r.nrows,
                n == before.columns.len(),
                j <= n,
                original@ == diagonal_of(before.columns).subrange(0, j as int),
            decreases n - j,
        {
            assert(self@.columns[j as int].len() == m);
            original.push(self.upper_r.columns[j][j]);
            j += 1;
        }
        assert(original@ =~= diagonal_of(before.columns));
        self.mirror();
        let ghost start = Elimination {
            columns: mirrored(before.columns),
            row: before.l_diag,
            rhs: rhs@,
            carry: F::zero_spec(),
        };
        let ghost permuted = gather(before.permutation, diag@);
        let mut carry: F = F::zero();
        j = 0;
        while j < n
            invariant
                self.wf(),
                self.upper_r.nrows == m,
                n == self@.columns.len(),
                diag@.len() == n,
                rhs@.len() == n,
                original@.len() == n,
                permuted == gather(before.permutation, diag@),
                j <= n,
                self@ == (LeastSquares {
                    columns: self@.columns,
                    l_diag: self@.l_diag,
                    ..before
                }),
                (Elimination {
                    columns: self@.columns,
                    row: self@.l_diag,
                    rhs: rhs@,
                    carry,
                }) == eliminate_entries(start, permuted, original@, j as int),
            decreases n - j,
        {
            let ghost reached = Elimination {
                columns: self@.columns,
                row: self@.l_diag,
                rhs: rhs@,
                carry,
            };
            let d: F = diag[self.permutation.entry(j)];
            if !d.is_zero() {
                self.l_diag[j] = d;
                fill(&mut self.l_diag, j + 1, n, F::zero());
                carry = F::zero();
                let ghost first = with_row(reached, j as int, d);
                assert(self@.l_diag =~= first.row);
                let mut k: usize = j;
                while k < n
                    invariant
                        self.wf(),
                        self.upper_r.nrows == m,
                        n == self@.columns.len(),
                        rhs@.len() == n,
                        j <= k <= n,
                        self@ == (LeastSquares {
                            columns: self@.columns,
                            l_diag: self@.l_diag,
                            ..before
                        }),
                        (Elimination {
                            columns: self@.columns,
                            row: self@.l_diag,
                            rhs: rhs@,
                            carry,
                        }) == rotate_rows(first, j as int, k as int),
                    decreases n - k,
                {
                    carry = self.rotate(&mut rhs, carry, k);
                    k += 1;
                }
            }
            let ghost e = Elimination {
                columns: self@.columns,
                row: self@.l_diag,
                rhs: rhs@,
                carry,
            };
            assert(self@.columns[j as int].len() == m);
            self.l_diag[j] = self.upper_r.columns[j][j];
            self.upper_r.columns[j][j] = original[j];
            assert(self@.columns =~= e.columns.update(
                j as int,
                e.columns[j as int].update(j as int, original@[j as int]),
            ));
            j += 1;
        }
        rhs
    }

    /// Solves the problem after a diagonal matrix has been eliminated from it, which left the
    /// right hand side `rhs`.
    fn solve_after_elimination(&self, rhs: Vec<F>) -> (r: (Vec<F>, CholeskyFactor<'_, F>))
        requires
            self.wf(),
            rhs@.len() == self@.columns.len(),
        ensures
            scattered(
                self@.permutation,
                transposed_lower_solution(
                    self@.columns,
                    self@.l_diag,
                    rhs@,
                    0,
                    self@.columns.len() as int,
                ),
                r.0@,
            ),
            r.1.lower,
            r.1.wf(),
            r.1.l == self.upper_r,
            r.1.l_diag == self.l_diag,
            r.1.qt_b == self.qt_b,
            r.1.permutation == self.permutation,
    {
        let mut y = rhs;
        solve_transposed_lower(&self.upper_r, &self.l_diag, &mut y);
        let x: Vec<F> = self.scatter(&y);
        let factor = CholeskyFactor {
            permutation: &self.permutation,
            l: &self.upper_r,
            qt_b: &self.qt_b,
            lower: true,
            l_diag: &self.l_diag,
        };
        (x, factor)
    }

    /// Solve the linear least squares problem for a diagonal matrix `D` (`diag`).
    ///
    /// This is equivalent to solving `(A^T * A + D * D) * x = A^T * b`. Where there is more than one
    /// solution, the entries for the columns with a zero on the diagonal of `L` are zero.
    ///
    /// # Return value
    ///
    /// Returns the solution `x` and a reference to a lower triangular matrix `L` with
    /// `P^T * (A^T * A + D * D) * P = L * L^T`.
    pub fn solve_with_diagonal(&mut self, diag: &Vec<F>, out: Vec<F>) -> (r: (
        Vec<F>,
        CholeskyFactor<'_, F>,
    ))
        requires
            old(self).wf(),
            diag@.len() == old(self)@.columns.len(),
            out@.len() == old(self)@.columns.len(),
        ensures
            final(self).wf(),
            final(self).upper_r.nrows == old(self).upper_r.nrows,
            final(self)@ == eliminated(old(self)@, diag@),
            scattered(
                old(self)@.permutation,
                solution_with_diagonal(old(self)@, diag@),
                r.0@,
            ),
            r.1.lower,
            r.1.wf(),
            r.1.l == final(self).upper_r,
            r.1.l_diag == final(self).l_diag,
            r.1.qt_b == final(self).qt_b,
            r.1.permutation == final(self).permutation,
    {
        let n: usize = self.qt_b.len();
        let mut out = out;
        let mut i: usize = 0;
        while i < n
            invariant
                n == self.qt_b@.len(),
                out@.len() == n,
                i <= n,
                forall|k: int| 0 <= k < i ==> #[trigger] out@[k] == self.qt_b@[k],
            decreases n - i,
        {
            out[i] = self.qt_b[i];
            i += 1;
        }
        assert(out@ =~= self.qt_b@);
        let rhs: Vec<F> = self.eliminate_diag(diag, out);
        self.solve_after_elimination(rhs)
    }

    /// Solve the least squares problem with a zero diagonal.
    ///
    /// This is equivalent to solving `A^T * A * x = A^T * b`. Where there is more than one solution,
    /// the entries for the columns with a zero on the diagonal of `R` are zero.
    pub fn solve_with_zero_diagonal(&self) -> (r: (Vec<F>, CholeskyFactor<'_, F>))
        requires
            self.wf(),
        ensures
            scattered(self@.permutation, solution_with_zero_diagonal(self@), r.0@),
            !r.1.lower,
            r.1.wf(),
            r.1.l == self.upper_r,
            r.1.l_diag == self.l_diag,
            r.1.qt_b == self.qt_b,
            r.1.permutation == self.permutation,
    {
        let mut y: Vec<F> = copy(&self.qt_b);
        solve_upper(&self.upper_r, &mut y);
        let x: Vec<F> = self.scatter(&y);
        let factor = CholeskyFactor {
            permutation: &self.permutation,
            l: &self.upper_r,
            qt_b: &self.qt_b,
            lower: false,
            l_diag: &self.l_diag,
        };
        (x, factor)
    }
}

/// Once one of the quotients is undefined, no later one changes the result.
proof fn lemma_max_scaled_none<F: Arithmetic>(p: LeastSquares<F>, k: int, l: int)
    requires
        k <= l,
        max_scaled(p, k) is None,
    ensures
        max_scaled(p, l) is None,
    decreases l,
{
    if k < l {
        lemma_max_scaled_none(p, k, l - 1);
    }
}

} // verus!
