//! Cholesky factors of normal equations.
use vstd::prelude::*;
use crate::matrix::Matrix;
use crate::permutation::{is_permutation, Permutation};
use crate::scalar::{Arithmetic, Real};
use crate::triangular::{
    lower_solution, solve_lower, solve_transposed_upper, transposed_upper_solution,
};
use crate::vector::{axpy, dot, dot_spec, fill};

verus! {

/// A lower triangular matrix `L` with
/// `P^T * (A^T * A + D * D) * P = L * L^T`.
pub struct CholeskyFactor<'a, F> {
    /// Entry `i` specifies which column of the identity matrix is column `i` of `P`.
    pub permutation: &'a Permutation,
    /// The first `n` rows hold the strictly lower part of `L`, or the upper triangular matrix `L^T`.
    pub l: &'a Matrix<F>,
    /// The first `n` entries of `Q^T * b`.
    pub qt_b: &'a Vec<F>,
    /// Whether `L` is held in the strictly lower part of `l` and in `l_diag`.
    pub lower: bool,
    /// The diagonal of `L`. It is not used unless `lower` is set.
    pub l_diag: &'a Vec<F>,
}

/// The vector `P^T * b`, where entry `i` of `permutation` is the row in which column `i` of `P`
/// holds its one.
pub open spec fn gather<F>(permutation: Seq<usize>, b: Seq<F>) -> Seq<F> {
    Seq::new(permutation.len(), |i: int| b[permutation[i] as int])
}

/// The sum of the first `k` terms of row `i` of `L * x`, for `k <= i`. The strictly lower part
/// of `L` is that of `columns`.
pub open spec fn lower_row_sum<F: Arithmetic>(columns: Seq<Seq<F>>, x: Seq<F>, i: int, k: int) -> F
    decreases k,
{
    if k <= 0 {
        F::zero_spec()
    } else {
        x[k - 1].times(columns[k - 1][i]).plus(lower_row_sum(columns, x, i, k - 1))
    }
}

/// The product of a lower triangular matrix with `x`. The matrix has the given diagonal, and
/// its strictly lower part is that of `columns`.
#[verifier::opaque]
pub open spec fn lower_product<F: Arithmetic>(
    columns: Seq<Seq<F>>,
    diagonal: Seq<F>,
    x: Seq<F>,
) -> Seq<F> {
    Seq::new(
        x.len(),
        |i: int| lower_row_sum(columns, x, i, i).plus(x[i].times(diagonal[i])),
    )
}

/// The product `R^T * x` with the upper triangular part `R` of `columns`.
pub open spec fn transposed_upper_product<F: Arithmetic>(
    columns: Seq<Seq<F>>,
    x: Seq<F>,
) -> Seq<F> {
    Seq::new(x.len(), |i: int| dot_spec(x, columns[i], 0, i + 1))
}

impl<'a, F: Real> CholeskyFactor<'a, F> {
    /// The parts of the factor fit together.
    pub open spec fn wf(&self) -> bool {
        let n = self.l@.len() as int;
        &&& self.l.wf()
        &&& n <= self.l.nrows
        &&& self.qt_b@.len() == n
        &&& self.l_diag@.len() == n
        &&& is_permutation(self.permutation@, n)
    }

    /// Solve the equation `L * x = P^T * b`.
    pub fn solve(&self, rhs: Vec<F>) -> (x: Vec<F>)
        requires
            self.wf(),
            rhs@.len() == self.l@.len(),
        ensures
            x@ == if self.lower {
                lower_solution(
                    self.l@,
                    self.l_diag@,
                    gather(self.permutation@, rhs@),
                    self.l@.len() as int,
                    self.l@.len() as int,
                )
            } else {
                transposed_upper_solution(
                    self.l@,
                    gather(self.permutation@, rhs@),
                    0,
                    self.l@.len() as int,
                )
            },
    {
        let n: usize = self.l.ncols();
        let mut x: Vec<F> = Vec::new();
        let mut i: usize = 0;
        while i < n
            invariant
                self.wf(),
                n == self.l@.len(),
                rhs@.len() == n,
                i <= n,
                x@ == gather(self.permutation@, rhs@).subrange(0, i as int),
            decreases n - i,
        {
            x.push(rhs[self.permutation.entry(i)]);
            i += 1;
        }
        assert(x@ =~= gather(self.permutation@, rhs@));
        if self.lower {
            solve_lower(self.l, self.l_diag, &mut x);
        } else {
            solve_transposed_upper(self.l, &mut x);
        }
        x
    }

    /// Computes `L * Q^T * b`. The result is put in place of what `out` holds.
    pub fn mul_qt_b(&self, out: Vec<F>) -> (r: Vec<F>)
        requires
            self.wf(),
            out@.len() == self.l@.len(),
        ensures
            r@ == if self.lower {
                lower_product(self.l@, self.l_diag@, self.qt_b@)
            } else {
                transposed_upper_product(self.l@, self.qt_b@)
            },
    {
        let n: usize = self.l.ncols();
        let mut out = out;
        proof {
            reveal(lower_product);
        }
        if self.lower {
            fill(&mut out, 0, n, F::zero());
            let mut i: usize = 0;
            while i < n
                invariant
                    self.wf(),
                    n == self.l@.len(),
                    out@.len() == n,
                    i <= n,
                    forall|p: int|
                        0 <= p < n ==> #[trigger] out@[p] == if p < i {
                            lower_product(self.l@, self.l_diag@, self.qt_b@)[p]
                        } else {
                            lower_row_sum(self.l@, self.qt_b@, p, i as int)
                        },
                decreases n - i,
            {
                proof {
                    reveal(lower_product);
                }
                assert(self.l@[i as int].len() == self.l.nrows);
                axpy(&mut out, self.qt_b[i], &self.l.columns[i], i + 1, n);
                let entry: F = out[i].add(self.qt_b[i].mul(self.l_diag[i]));
                out[i] = entry;
                i += 1;
            }
            assert(out@ =~= lower_product(self.l@, self.l_diag@, self.qt_b@));
        } else {
            let mut i: usize = 0;
            while i < n
                invariant
                    self.wf(),
                    n == self.l@.len(),
                    out@.len() == n,
                    i <= n,
                    forall|p: int|
                        0 <= p < i ==> #[trigger] out@[p] == transposed_upper_product(
                            self.l@,
                            self.qt_b@,
                        )[p],
                decreases n - i,
            {
                assert(self.l@[i as int].len() == self.l.nrows);
                out[i] = dot(self.qt_b, &self.l.columns[i], 0, i + 1);
                i += 1;
            }
            assert(out@ =~= transposed_upper_product(self.l@, self.qt_b@));
        }
        out
    }
}

} // verus!
