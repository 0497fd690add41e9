//! Pivoted QR factorization.
use vstd::prelude::*;
use crate::householder::{
    lemma_reflect_all_keeps_rows, lemma_reflect_all_len, make_reflector, reflect, reflect_all,
    reflect_spec, reflector, signed_norm,
};
use crate::lls::{LeastSquares, LinearLeastSquaresDiagonalProblem};
use crate::matrix::{has_rows, Matrix};
use crate::permutation::{exchange, is_permutation, Permutation};
use crate::scalar::{Arithmetic, Real};
use crate::vector::{argmax, argmax_spec, copy, norm, norm_spec, norm_squared, norm_squared_spec};

verus! {

/// Errors which can occur using the pivoted QR factorization or the solver.
pub enum Error {
    ShapeConstraintFailed,
}

/// Pivoted QR decomposition.
///
/// Let `A` be an `m` by `n` matrix with `m >= n`. The decomposition consists of
/// a permutation matrix `P`, a matrix `Q` with orthonormal columns and an upper
/// triangular matrix `R` such that `A * P = Q * R`.
pub struct PivotedQR<F> {
    /// The column norms of the input matrix `A`.
    pub column_norms: Vec<F>,
    /// The strictly upper part of `R` and the Householder transformations, combined in one matrix.
    pub qr: Matrix<F>,
    /// The diagonal entries of `R`.
    pub r_diag: Vec<F>,
    /// Entry `i` specifies which column of the identity matrix is column `i` of `P`.
    pub permutation: Permutation,
    /// Working storage.
    pub work: Vec<F>,
}

/// The state of the factorization of a matrix.
#[verifier::ext_equal]
pub struct Factorization<F> {
    /// The column norms of the input matrix.
    pub column_norms: Seq<F>,
    /// The columns that are reduced hold a column of `R` above the diagonal and
    /// a Householder vector from the diagonal on. The others hold a column of the
    /// input matrix to which the reflections found so far have been applied.
    pub columns: Seq<Seq<F>>,
    /// The diagonal entries of `R` for the columns that are reduced, and the norm of
    /// what is left of the column for the others.
    pub r_diag: Seq<F>,
    /// The columns of the input matrix in their present order.
    pub permutation: Seq<usize>,
    /// The norms of what was left of the columns when these were last computed
    /// from the entries.
    pub work: Seq<F>,
}

/// The state before the first column is reduced.
pub open spec fn unreduced<F: Arithmetic>(a: Seq<Seq<F>>) -> Factorization<F> {
    let norms = Seq::new(a.len(), |k: int| norm_squared_spec(a[k]).root());
    Factorization {
        column_norms: norms,
        columns: a,
        r_diag: norms,
        permutation: Seq::new(a.len(), |k: int| k as usize),
        work: norms,
    }
}

/// Brings the column with the largest of the remaining norms to position `j`.
pub open spec fn pivot<F: Arithmetic>(s: Factorization<F>, j: int) -> Factorization<F> {
    let k = argmax_spec(s.r_diag, j, s.r_diag.len() as int);
    Factorization {
        columns: exchange(s.columns, j, k),
        permutation: exchange(s.permutation, j, k),
        r_diag: s.r_diag.update(k, s.r_diag[j]),
        work: s.work.update(k, s.work[j]),
        ..s
    }
}

/// One twentieth.
pub open spec fn twentieth<F: Arithmetic>() -> F {
    F::one_spec().over(F::of_u32(20))
}

/// The norm of the rows `j + 1`, ... of `column`, given the norm `length` of the rows `j`, ....
/// It comes with the value that it had when it was last computed from the entries.
///
/// The norm is not computed anew unless too much of it is lost to cancellation, which is
/// decided as in the working note 176 of LAPACK.
pub open spec fn downdate_spec<F: Arithmetic>(column: Seq<F>, j: int, length: F, reference: F) -> (
    F,
    F,
) {
    if length.vanishes() {
        (length, reference)
    } else {
        let share = column[j].over(length);
        let partial = share.magnitude().below(F::one_spec());
        let rest = if partial {
            length.times(F::one_spec().minus(share.times(share)).root())
        } else {
            length
        };
        let ratio = if partial {
            rest.over(reference)
        } else {
            F::zero_spec()
        };
        if ratio.magnitude().vanishes() || twentieth::<F>().times(ratio.times(ratio)).at_most(
            F::epsilon_spec(),
        ) {
            let anew = norm_spec(column, j + 1, column.len() as int);
            (anew, anew)
        } else {
            (rest, reference)
        }
    }
}

/// Reduces column `j`: a reflection takes what is left of it to a multiple of a unit vector, and
/// is applied to the columns after it.
pub open spec fn reduce<F: Arithmetic>(s: Factorization<F>, j: int) -> Factorization<F> {
    let n = s.columns.len();
    let x = s.columns[j];
    if norm_spec(x, j, x.len() as int).vanishes() {
        Factorization { r_diag: s.r_diag.update(j, F::zero_spec()), ..s }
    } else {
        let scale = signed_norm(x, j);
        let w = reflector(x, j, scale);
        let columns = Seq::new(
            n,
            |k: int|
                if k < j {
                    s.columns[k]
                } else if k == j {
                    w
                } else {
                    reflect_spec(w, j, s.columns[k])
                },
        );
        Factorization {
            columns: columns,
            r_diag: Seq::new(
                n,
                |k: int|
                    if k < j {
                        s.r_diag[k]
                    } else if k == j {
                        scale.negated()
                    } else {
                        downdate_spec(columns[k], j, s.r_diag[k], s.work[k]).0
                    },
            ),
            work: Seq::new(
                n,
                |k: int|
                    if k <= j {
                        s.work[k]
                    } else {
                        downdate_spec(columns[k], j, s.r_diag[k], s.work[k]).1
                    },
            ),
            ..s
        }
    }
}

/// The state after `j` columns of the matrix with the columns `a` are reduced.
pub open spec fn reduced<F: Arithmetic>(a: Seq<Seq<F>>, j: int) -> Factorization<F>
    decreases j,
{
    if j <= 0 {
        unreduced(a)
    } else {
        reduce(pivot(reduced(a, j - 1), j - 1), j - 1)
    }
}

/// The factorization of the matrix with the columns `a`.
pub open spec fn factorization<F: Arithmetic>(a: Seq<Seq<F>>) -> Factorization<F> {
    reduced(a, a.len() as int)
}

/// The least squares problem for a factorized matrix and the vector `b`.
pub open spec fn least_squares<F: Arithmetic>(f: Factorization<F>, b: Seq<F>) -> LeastSquares<F> {
    let n = f.columns.len() as int;
    LeastSquares {
        qt_b: reflect_all(f.columns, b, n).subrange(0, n),
        columns: Seq::new(n as nat, |k: int| f.columns[k].update(k, f.r_diag[k])),
        l_diag: f.r_diag,
        permutation: f.permutation,
        column_norms: f.column_norms,
    }
}

impl<F> View for PivotedQR<F> {
    type V = Factorization<F>;

    open spec fn view(&self) -> Factorization<F> {
        Factorization {
            column_norms: self.column_norms@,
            columns: self.qr@,
            r_diag: self.r_diag@,
            permutation: self.permutation@,
            work: self.work@,
        }
    }
}

impl<F> Factorization<F> {
    /// The parts fit together: the matrix has `m` rows, and no more columns than rows.
    pub open spec fn wf(self, m: int) -> bool {
        let n = self.columns.len() as int;
        &&& n <= m
        &&& has_rows(self.columns, m)
        &&& self.column_norms.len() == n
        &&& self.r_diag.len() == n
        &&& is_permutation(self.permutation, n)
        &&& self.work.len() == n
    }
}

/// Computes the norm of the rows `j + 1`, ... of `column` from that of the rows `j`, ....
fn downdate<F: Real>(column: &Vec<F>, j: usize, length: F, reference: F) -> (r: (F, F))
    requires
        j < column@.len(),
    ensures
        r == downdate_spec(column@, j as int, length, reference),
{
    if length.is_zero() {
        return (length, reference);
    }
    let m: usize = column.len();
    let share: F = column[j].div(length);
    let mut rest: F = length;
    let mut ratio: F = F::zero();
    if share.abs().lt(F::one()) {
        rest = length.mul(F::one().sub(share.mul(share)).sqrt());
        ratio = rest.div(reference);
    }
    let twentieth: F = F::one().div(F::from_u32(20));
    if ratio.abs().is_zero() || twentieth.mul(ratio.mul(ratio)).le(F::default_epsilon()) {
        let anew: F = norm(column, j + 1, m);
        (anew, anew)
    } else {
        (rest, reference)
    }
}

impl<F: Real> PivotedQR<F> {
    /// The parts of the decomposition fit together.
    pub open spec fn wf(&self) -> bool {
        self@.wf(self.qr.nrows as int)
    }

    /// Create a pivoted QR decomposition of an `m` by `n` matrix with `m >= n`.
    ///
    /// # Errors
    ///
    /// Only returns `Err` when `m < n`.
    pub fn new(a: Matrix<F>) -> (r: Result<Self, Error>)
        requires
            a.wf(),
        ensures
            r is Err <==> a.nrows < a@.len(),
            r matches Ok(qr) ==> qr.wf() && qr.qr.nrows == a.nrows && qr@ == factorization(a@),
    {
        let ghost input = a@;
        let mut a = a;
        let m: usize = a.nrows;
        let n: usize = a.ncols();
        if m < n {
            return Err(Error::ShapeConstraintFailed);
        }
        let mut column_norms: Vec<F> = Vec::new();
        let mut k: usize = 0;
        while k < n
            invariant
                k <= n,
                a@ == input,
                n == input.len(),
                m == a.nrows,
                has_rows(input, m as int),
                column_norms@.len() == k,
                forall|l: int|
                    0 <= l < k ==> #[trigger] column_norms@[l] == norm_squared_spec(input[l]).root(),
            decreases n - k,
        {
            assert(a@[k as int].len() == m);
            column_norms.push(norm_squared(&a.columns[k]).sqrt());
            k += 1;
        }
        let mut qr = PivotedQR {
            r_diag: copy(&column_norms),
            work: copy(&column_norms),
            permutation: Permutation::identity(n),
            column_norms,
            qr: a,
        };
        assert(qr@ =~= unreduced(input));
        let mut j: usize = 0;
        while j < n
            invariant
                j <= n,
                n == input.len(),
                has_rows(input, m as int),
                qr.qr.nrows == m,
                n == qr@.columns.len(),
                qr.wf(),
                qr@ == reduced(input, j as int),
            decreases n - j,
        {
            qr.pivot_column(j);
            qr.reduce_column(j);
            j += 1;
        }
        Ok(qr)
    }

    /// Brings the column with the largest of the remaining norms to position `j`.
    fn pivot_column(&mut self, j: usize)
        requires
            old(self).wf(),
            j < old(self)@.columns.len(),
        ensures
            final(self).wf(),
            final(self).qr.nrows == old(self).qr.nrows,
            final(self)@ == pivot(old(self)@, j as int),
    {
        let n: usize = self.r_diag.len();
        let k: usize = argmax(&self.r_diag, j, n);
        self.qr.swap_columns(j, k);
        self.permutation.swap_rows(j, k);
        let length: F = self.r_diag[j];
        self.r_diag[k] = length;
        let reference: F = self.work[j];
        self.work[k] = reference;
        assert(self@ =~= pivot(old(self)@, j as int));
    }

    /// Reduces column `j` by a reflection and applies it to the columns after it.
    fn reduce_column(&mut self, j: usize)
        requires
            old(self).wf(),
            j < old(self)@.columns.len(),
        ensures
            final(self).wf(),
            final(self).qr.nrows == old(self).qr.nrows,
            final(self)@ == reduce(old(self)@, j as int),
    {
        let m: usize = self.qr.nrows;
        let n: usize = self.qr.ncols();
        let ghost before = self@;
        assert(before.columns[j as int].len() == m);
        let length: F = norm(&self.qr.columns[j], j, m);
        if length.is_zero() {
            self.r_diag[j] = F::zero();
            assert(self@ =~= reduce(before, j as int));
            return;
        }
        let mut w: Vec<F> = Vec::new();
        std::mem::swap(&mut w, &mut self.qr.columns[j]);
        let scale: F = if w[j].is_negative() {
            length.neg()
        } else {
            length
        };
        self.r_diag[j] = scale.neg();
        make_reflector(&mut w, j, scale);
        let ghost goal = reduce(before, j as int);
        let mut k: usize = j + 1;
        while k < n
            invariant
                j < k <= n,
                n <= m,
                before.wf(m as int),
                n == before.columns.len(),
                w@.len() == m,
                goal == reduce(before, j as int),
                !norm_spec(before.columns[j as int], j as int, m as int).vanishes(),
                w@ == goal.columns[j as int],
                w@ == reflector(
                    before.columns[j as int],
                    j as int,
                    signed_norm(before.columns[j as int], j as int),
                ),
                self.qr.nrows == m,
                self.qr@.len() == n,
                self.r_diag@.len() == n,
                self.work@.len() == n,
                self.column_norms@ == before.column_norms,
                self.permutation@ == before.permutation,
                forall|l: int|
                    0 <= l < n && l != j ==> #[trigger] self.qr@[l] == if l < k {
                        goal.columns[l]
                    } else {
                        before.columns[l]
                    },
                forall|l: int|
                    0 <= l < n ==> #[trigger] self.r_diag@[l] == if l < k {
                        goal.r_diag[l]
                    } else {
                        before.r_diag[l]
                    },
                forall|l: int|
                    0 <= l < n ==> #[trigger] self.work@[l] == if l < k {
                        goal.work[l]
                    } else {
                        before.work[l]
                    },
            decreases n - k,
        {
            assert(self.qr@[k as int] == before.columns[k as int]);
            assert(before.columns[k as int].len() == m);
            let ghost columns = self.qr@;
            reflect(&w, j, &mut self.qr.columns[k]);
            assert(self.qr@ =~= columns.update(k as int, goal.columns[k as int]));
            let rest: (F, F) = downdate(&self.qr.columns[k], j, self.r_diag[k], self.work[k]);
            self.r_diag[k] = rest.0;
            self.work[k] = rest.1;
            k += 1;
        }
        let ghost columns = self.qr@;
        std::mem::swap(&mut w, &mut self.qr.columns[j]);
        assert(self.qr@ =~= columns.update(j as int, goal.columns[j as int]));
        assert(self.qr@ =~= goal.columns);
        assert(self@ =~= goal);
    }

    /// Consume the QR-decomposition and transform it into a parametrized least squares problem.
    ///
    /// See [`LinearLeastSquaresDiagonalProblem`] for details.
    pub fn into_least_squares_diagonal_problem(
        self,
        b: Vec<F>,
    ) -> (r: LinearLeastSquaresDiagonalProblem<F>)
        requires
            self.wf(),
            b@.len() == self.qr.nrows,
        ensures
            r.wf(),
            r.upper_r.nrows == self.qr.nrows,
            r@ == least_squares(self@, b@),
    {
        let n: usize = self.qr.ncols();
        let m: usize = self.qr.nrows;
        let ghost f = self@;
        let ghost input = b@;
        let mut upper_r = self.qr;
        let r_diag = self.r_diag;
        let mut b = b;
        // compute the first n entries of Q^T * b
        let mut qt_b: Vec<F> = Vec::new();
        let mut j: usize = 0;
        while j < n
            invariant
                f.wf(m as int),
                n == f.columns.len(),
                upper_r@ == f.columns,
                upper_r.nrows == m,
                input.len() == m,
                j <= n,
                b@.len() == m,
                b@ == reflect_all(f.columns, input, j as int),
                qt_b@.len() == j,
                forall|i: int|
                    0 <= i < j ==> #[trigger] qt_b@[i] == reflect_all(f.columns, input, n as int)[i],
            decreases n - j,
        {
            assert(upper_r@[j as int].len() == m);
            if !upper_r.columns[j][j].is_zero() {
                reflect(&upper_r.columns[j], j, &mut b);
            }
            proof {
                lemma_reflect_all_keeps_rows(f.columns, input, j as int, j as int + 1, n as int);
            }
            qt_b.push(b[j]);
            j += 1;
        }
        j = 0;
        while j < n
            invariant
                f.wf(m as int),
                n == f.columns.len(),
                upper_r@.len() == n,
                upper_r.nrows == m,
                r_diag@ == f.r_diag,
                j <= n,
                forall|k: int|
                    0 <= k < n ==> #[trigger] upper_r@[k] == if k < j {
                        f.columns[k].update(k, f.r_diag[k])
                    } else {
                        f.columns[k]
                    },
            decreases n - j,
        {
            let ghost columns = upper_r@;
            assert(upper_r@[j as int].len() == m);
            upper_r.columns[j][j] = r_diag[j];
            assert(upper_r@ =~= columns.update(
                j as int,
                columns[j as int].update(j as int, r_diag@[j as int]),
            ));
            j += 1;
        }
        let r = LinearLeastSquaresDiagonalProblem {
            qt_b,
            column_norms: self.column_norms,
            upper_r,
            l_diag: r_diag,
            permutation: self.permutation,
        };
        proof {
            lemma_reflect_all_len(f.columns, input, n as int);
        }
        assert(r@ =~= least_squares(f, input));
        r
    }
}

} // verus!
