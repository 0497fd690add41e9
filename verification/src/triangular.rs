//! Systems of linear equations with a triangular matrix.
//!
//! The matrix is given by its columns, of which the first `n` rows are read. The
//! diagonal of a lower triangular matrix is kept apart from the part below it.
use vstd::prelude::*;
use crate::matrix::Matrix;
use crate::scalar::{Arithmetic, Real};
use crate::vector::{axpy, axpy_spec, dot, dot_spec};

verus! {

/// Substitution for `R * x = b` with the upper triangular part `R` of `columns`, from the last
/// of the first `n` rows up. The last entries of `b` are the solution already. A row with a
/// zero on the diagonal is left out: its entry of the solution is zero.
pub open spec fn upper_solution<F: Arithmetic>(columns: Seq<Seq<F>>, b: Seq<F>, n: int) -> Seq<F>
    decreases n,
{
    if n <= 0 {
        b
    } else if columns[n - 1][n - 1].vanishes() {
        upper_solution(columns, b.update(n - 1, F::zero_spec()), n - 1)
    } else {
        let x = b[n - 1].over(columns[n - 1][n - 1]);
        upper_solution(
            columns,
            axpy_spec(b.update(n - 1, x), x.negated(), columns[n - 1], 0, n - 1),
            n - 1,
        )
    }
}

/// Substitution for `R^T * x = b` with the upper triangular part `R` of `columns`, from row `i`
/// down to row `n - 1`. The first `i` entries of `b` are the solution already. The
/// substitution ends early, with `b` as it is then, at a zero on the diagonal.
pub open spec fn transposed_upper_solution<F: Arithmetic>(
    columns: Seq<Seq<F>>,
    b: Seq<F>,
    i: int,
    n: int,
) -> Seq<F>
    decreases n - i,
{
    if i >= n || columns[i][i].vanishes() {
        b
    } else {
        let x = b[i].minus(dot_spec(columns[i], b, 0, i)).over(columns[i][i]);
        transposed_upper_solution(columns, b.update(i, x), i + 1, n)
    }
}

/// Substitution for `L * x = b` after the first `j` of the `n` steps. `L` has the diagonal
/// `diagonal` and the strictly lower part of `columns`.
pub open spec fn lower_solution<F: Arithmetic>(
    columns: Seq<Seq<F>>,
    diagonal: Seq<F>,
    b: Seq<F>,
    j: int,
    n: int,
) -> Seq<F>
    decreases j,
{
    if j <= 0 {
        b
    } else {
        let y = lower_solution(columns, diagonal, b, j - 1, n);
        let x = y[j - 1].over(diagonal[j - 1]);
        axpy_spec(y.update(j - 1, x), x.negated(), columns[j - 1], j, n)
    }
}

/// Substitution for `L^T * x = b` in the first `n` rows, after the steps for the rows `n - 1`
/// up to `j`. `L` has the diagonal `diagonal` and the strictly lower part of `columns`. A row
/// with a zero on the diagonal is left out: its entry of the solution is zero.
pub open spec fn transposed_lower_solution<F: Arithmetic>(
    columns: Seq<Seq<F>>,
    diagonal: Seq<F>,
    b: Seq<F>,
    j: int,
    n: int,
) -> Seq<F>
    decreases n - j,
{
    if j >= n {
        b
    } else {
        let y = transposed_lower_solution(columns, diagonal, b, j + 1, n);
        y.update(
            j,
            if diagonal[j].vanishes() {
                F::zero_spec()
            } else {
                y[j].minus(dot_spec(columns[j], y, j + 1, n)).over(diagonal[j])
            },
        )
    }
}

/// Solves `R * x = b` with the upper triangular part `R` of the first `n` rows of `r`, and
/// puts the solution in place of `b`. The solution is zero in the rows with a zero on the diagonal,
/// which are left out.
pub fn solve_upper<F: Real>(r: &Matrix<F>, b: &mut Vec<F>)
    requires
        r.wf(),
        r@.len() <= r.nrows,
        old(b)@.len() == r@.len(),
    ensures
        final(b)@ == upper_solution(r@, old(b)@, r@.len() as int),
        final(b)@.len() == old(b)@.len(),
{
    let ghost n = r@.len() as int;
    let mut i: usize = r.ncols();
    while i > 0
        invariant
            r.wf(),
            n == r@.len(),
            n <= r.nrows,
            i <= n,
            b@.len() == n,
            old(b)@.len() == n,
            upper_solution(r@, b@, i as int) == upper_solution(r@, old(b)@, n),
        decreases i,
    {
        i -= 1;
        assert(r@[i as int].len() == r.nrows);
        let diagonal: F = r.columns[i][i];
        if diagonal.is_zero() {
            b[i] = F::zero();
        } else {
            let x: F = b[i].div(diagonal);
            b[i] = x;
            axpy(b, x.neg(), &r.columns[i], 0, i);
        }
    }
}

/// Solves `R^T * x = b` with the upper triangular part `R` of the first `n` rows of `r`, and
/// puts the solution in place of `b`. Stops at the first zero that it meets on the diagonal.
pub fn solve_transposed_upper<F: Real>(r: &Matrix<F>, b: &mut Vec<F>)
    requires
        r.wf(),
        r@.len() <= r.nrows,
        old(b)@.len() == r@.len(),
    ensures
        final(b)@ == transposed_upper_solution(r@, old(b)@, 0, r@.len() as int),
        final(b)@.len() == old(b)@.len(),
{
    let n: usize = r.ncols();
    let mut i: usize = 0;
    while i < n
        invariant
            r.wf(),
            n == r@.len(),
            n <= r.nrows,
            i <= n,
            b@.len() == n,
            old(b)@.len() == n,
            transposed_upper_solution(r@, b@, i as int, n as int) == transposed_upper_solution(
                r@,
                old(b)@,
                0,
                n as int,
            ),
        decreases n - i,
    {
        assert(r@[i as int].len() == r.nrows);
        let diagonal: F = r.columns[i][i];
        if diagonal.is_zero() {
            return;
        }
        let x: F = b[i].sub(dot(&r.columns[i], b, 0, i)).div(diagonal);
        b[i] = x;
        i += 1;
    }
}

/// Solves `L * x = b` and puts the solution in place of `b`. `L` has the given diagonal and
/// the strictly lower part of the first `n` rows of `l`.
pub fn solve_lower<F: Real>(l: &Matrix<F>, diagonal: &Vec<F>, b: &mut Vec<F>)
    requires
        l.wf(),
        l@.len() <= l.nrows,
        diagonal@.len() == l@.len(),
        old(b)@.len() == l@.len(),
    ensures
        final(b)@ == lower_solution(l@, diagonal@, old(b)@, l@.len() as int, l@.len() as int),
        final(b)@.len() == old(b)@.len(),
{
    let n: usize = l.ncols();
    let mut j: usize = 0;
    while j < n
        invariant
            l.wf(),
            n == l@.len(),
            n <= l.nrows,
            diagonal@.len() == n,
            j <= n,
            b@.len() == n,
            b@ == lower_solution(l@, diagonal@, old(b)@, j as int, n as int),
        decreases n - j,
    {
        assert(l@[j as int].len() == l.nrows);
        let x: F = b[j].div(diagonal[j]);
        b[j] = x;
        axpy(b, x.neg(), &l.columns[j], j + 1, n);
        j += 1;
    }
}

/// Solves `L^T * x = b` and puts the solution in place of `b`. `L` has the given diagonal and
/// the strictly lower part of the first `n` rows of `l`. The solution is zero in the rows with a
/// zero on the diagonal, which are left out.
pub fn solve_transposed_lower<F: Real>(l: &Matrix<F>, diagonal: &Vec<F>, b: &mut Vec<F>)
    requires
        l.wf(),
        l@.len() <= l.nrows,
        diagonal@.len() == l@.len(),
        old(b)@.len() == l@.len(),
    ensures
        final(b)@ == transposed_lower_solution(l@, diagonal@, old(b)@, 0, l@.len() as int),
        final(b)@.len() == old(b)@.len(),
{
    let n: usize = l.ncols();
    let mut j: usize = n;
    while j > 0
        invariant
            l.wf(),
            n == l@.len(),
            n <= l.nrows,
            diagonal@.len() == n,
            j <= n,
            b@.len() == n,
            b@ == transposed_lower_solution(l@, diagonal@, old(b)@, j as int, n as int),
        decreases j,
    {
        j -= 1;
        assert(l@[j as int].len() == l.nrows);
        let x: F = if diagonal[j].is_zero() {
            F::zero()
        } else {
            b[j].sub(dot(&l.columns[j], b, j + 1, n)).div(diagonal[j])
        };
        b[j] = x;
    }
}

} // verus!
