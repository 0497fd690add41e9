//! What becomes of entries off the diagonal that are not numbers.
//!
//! None of these laws asks anything of the rounding.
use vstd::prelude::*;
use crate::cholesky::{gather, lower_product, lower_row_sum, transposed_upper_product};
use crate::givens::{eliminate_entries, eliminate_entry, rotate_rows, with_row, Elimination};
use crate::laws::elimination::{fits, lemma_rotate_fits};
use crate::laws::solutions::start;
use crate::laws::triangular::{lemma_lower_solution_len, lemma_transposed_lower_solution_keeps};
use crate::laws::undefined::{
    law_dot_undefined, law_norm_squared_undefined, law_transposed_upper_solution_undefined,
    lemma_upper_undefined_kept, propagates,
};
use crate::lls::{
    diagonal_of, eliminated, elimination, scattered, solution_with_diagonal, upper_product,
    upper_row_sum, LeastSquares,
};
use crate::scalar::Arithmetic;
use crate::triangular::{
    lower_solution, transposed_lower_solution, transposed_upper_solution, upper_solution,
};
use crate::vector::{axpy_spec, dot_spec, norm_squared_spec};

verus! {

/// In the result of the substitution for `R * x = b` an entry is undefined where an entry of its row of `R`
/// is, but for rows and columns with a zero on the diagonal.
pub proof fn law_upper_solution_of_undefined_entry<F: Arithmetic>(
    columns: Seq<Seq<F>>,
    b: Seq<F>,
    n: int,
    i: int,
    k: int,
)
    requires
        propagates::<F>(),
        0 <= i < k < n <= b.len(),
        columns[k][i].undefined(),
        !columns[i][i].vanishes(),
        !columns[k][k].vanishes(),
    ensures
        upper_solution(columns, b, n)[i].undefined(),
    decreases n,
{
    let d = columns[n - 1][n - 1];
    if d.vanishes() {
        law_upper_solution_of_undefined_entry(
            columns,
            b.update(n - 1, F::zero_spec()),
            n - 1,
            i,
            k,
        );
    } else {
        let x = b[n - 1].over(d);
        let c = b.update(n - 1, x);
        let rest = axpy_spec(c, x.negated(), columns[n - 1], 0, n - 1);
        if k == n - 1 {
            assert(rest[i].undefined());
            lemma_upper_undefined_kept(columns, rest, n - 1, i);
        } else {
            law_upper_solution_of_undefined_entry(columns, rest, n - 1, i, k);
        }
    }
}

/// In the result of the substitution for `L^T * x = b` an entry is undefined where an entry of its column of
/// `L` is, but for columns with a zero on the diagonal.
pub proof fn law_transposed_lower_solution_of_undefined_entry<F: Arithmetic>(
    columns: Seq<Seq<F>>,
    diagonal: Seq<F>,
    b: Seq<F>,
    j: int,
    n: int,
    i: int,
    k: int,
)
    requires
        propagates::<F>(),
        0 <= j <= i < k < n <= b.len(),
        columns[i][k].undefined(),
        !diagonal[i].vanishes(),
    ensures
        transposed_lower_solution(columns, diagonal, b, j, n).len() == b.len(),
        transposed_lower_solution(columns, diagonal, b, j, n)[i].undefined(),
    decreases n - j,
{
    if j < i {
        law_transposed_lower_solution_of_undefined_entry(
            columns,
            diagonal,
            b,
            j + 1,
            n,
            i,
            k,
        );
    } else {
        lemma_transposed_lower_solution_keeps(columns, diagonal, b, j + 1, n);
        let y = transposed_lower_solution(columns, diagonal, b, j + 1, n);
        law_dot_undefined(columns[i], y, i + 1, n, k);
    }
}

/// In the result of the substitution for `L * x = b` an entry is undefined where an entry of its row of `L`
/// is.
pub proof fn law_lower_solution_of_undefined_entry<F: Arithmetic>(
    columns: Seq<Seq<F>>,
    diagonal: Seq<F>,
    b: Seq<F>,
    j: int,
    n: int,
    i: int,
    k: int,
)
    requires
        propagates::<F>(),
        j <= n <= b.len(),
        0 <= k < i < n,
        k < j,
        columns[k][i].undefined(),
    ensures
        lower_solution(columns, diagonal, b, j, n).len() == b.len(),
        lower_solution(columns, diagonal, b, j, n)[i].undefined(),
    decreases j,
{
    if k < j - 1 {
        law_lower_solution_of_undefined_entry(columns, diagonal, b, j - 1, n, i, k);
    } else {
        lemma_lower_solution_len(columns, diagonal, b, j - 1, n);
    }
}

/// In the result of the substitution for `R^T * x = b` an entry is undefined where an entry of its column of
/// `R` is, where no entry on the diagonal is zero.
pub proof fn law_transposed_upper_solution_of_undefined_entry<F: Arithmetic>(
    columns: Seq<Seq<F>>,
    b: Seq<F>,
    i: int,
    n: int,
    j: int,
    k: int,
)
    requires
        propagates::<F>(),
        0 <= i <= j < n <= b.len(),
        0 <= k < j,
        columns[j][k].undefined(),
        forall|c: int| i <= c < n ==> !(#[trigger] columns[c])[c].vanishes(),
    ensures
        transposed_upper_solution(columns, b, i, n)[j].undefined(),
    decreases n - i,
{
    assert(!columns[i][i].vanishes());
    let x = b[i].minus(dot_spec(columns[i], b, 0, i)).over(columns[i][i]);
    let c = b.update(i, x);
    if i < j {
        law_transposed_upper_solution_of_undefined_entry(columns, c, i + 1, n, j, k);
    } else {
        law_dot_undefined(columns[j], b, 0, j, k);
        law_transposed_upper_solution_undefined(columns, c, i + 1, n, j);
    }
}

/// A row of `R * P^T * x` is undefined where an entry of that row of `R` is.
proof fn lemma_upper_row_of_undefined<F: Arithmetic>(
    p: LeastSquares<F>,
    x: Seq<F>,
    i: int,
    k: int,
    j: int,
)
    requires
        propagates::<F>(),
        0 <= i <= j < k,
        p.columns[j][i].undefined(),
    ensures
        upper_row_sum(p, x, i, k).undefined(),
    decreases k,
{
    if j < k - 1 {
        lemma_upper_row_of_undefined(p, x, i, k - 1, j);
    }
}

/// `a_x_norm_squared` is undefined where an entry of `R` is.
pub proof fn law_a_x_norm_of_undefined_r<F: Arithmetic>(
    p: LeastSquares<F>,
    x: Seq<F>,
    i: int,
    j: int,
)
    requires
        propagates::<F>(),
        0 <= i <= j < p.columns.len(),
        p.columns[j][i].undefined(),
    ensures
        norm_squared_spec(upper_product(p, x)).undefined(),
{
    let n = p.columns.len() as int;
    lemma_upper_row_of_undefined(p, x, i, n, j);
    assert(upper_product(p, x)[i].undefined());
    law_norm_squared_undefined(upper_product(p, x), i);
}

/// An undefined entry of `R` off the diagonal makes the entry for its row in the result of
/// `solve_with_diagonal` undefined, unless the diagonal entry of `L` is zero.
pub proof fn law_solve_with_diagonal_of_undefined_entry<F: Arithmetic>(
    p: LeastSquares<F>,
    m: int,
    diag: Seq<F>,
    x: Seq<F>,
    i: int,
    k: int,
)
    requires
        propagates::<F>(),
        p.wf(m),
        diag.len() == p.columns.len(),
        scattered(p.permutation, solution_with_diagonal(p, diag), x),
        0 <= i < k < p.columns.len(),
        p.columns[k][i].undefined(),
        !eliminated(p, diag).l_diag[i].vanishes(),
    ensures
        x[p.permutation[i] as int].undefined(),
{
    let n = p.columns.len() as int;
    let first = start(p);
    let e = elimination(p, diag, p.qt_b);
    assert(fits(first, n)) by {
        assert forall|c: int| 0 <= c < n implies n <= (#[trigger] first.columns[c]).len() by {
            assert(p.columns[c].len() == m);
        }
    }
    assert(p.columns[i].len() == m && p.columns[k].len() == m);
    assert(first.columns[i][k] == p.columns[k][i]);
    lemma_eliminate_keeps_undefined(
        first,
        gather(p.permutation, diag),
        diagonal_of(p.columns),
        n,
        n,
        i,
        k,
    );
    lemma_transposed_lower_solution_keeps(e.columns, e.row, e.rhs, 0, n);
    law_transposed_lower_solution_of_undefined_entry(e.columns, e.row, e.rhs, 0, n, i, k);
    assert(x[p.permutation[i] as int] == solution_with_diagonal(p, diag)[i]);
}

/// The rotation of rows keeps undefined entries.
proof fn lemma_rotate_rows_keeps_undefined<F: Arithmetic>(
    s: Elimination<F>,
    lo: int,
    hi: int,
    n: int,
    i: int,
    k: int,
)
    requires
        propagates::<F>(),
        fits(s, n),
        0 <= lo <= hi <= n,
        0 <= i < k < n,
        s.columns[i][k].undefined(),
    ensures
        fits(rotate_rows(s, lo, hi), n),
        rotate_rows(s, lo, hi).columns[i][k].undefined(),
    decreases hi - lo,
{
    if lo < hi {
        lemma_rotate_rows_keeps_undefined(s, lo, hi - 1, n, i, k);
        let t = rotate_rows(s, lo, hi - 1);
        lemma_rotate_fits(t, hi - 1, n);
        assert(n <= t.columns[i].len());
    }
}

/// The elimination of a diagonal matrix keeps undefined entries.
proof fn lemma_eliminate_keeps_undefined<F: Arithmetic>(
    s: Elimination<F>,
    diagonal: Seq<F>,
    original: Seq<F>,
    j: int,
    n: int,
    i: int,
    k: int,
)
    requires
        propagates::<F>(),
        fits(s, n),
        0 <= j <= n,
        0 <= i < k < n,
        s.columns[i][k].undefined(),
    ensures
        fits(eliminate_entries(s, diagonal, original, j), n),
        eliminate_entries(s, diagonal, original, j).columns[i][k].undefined(),
    decreases j,
{
    if j > 0 {
        lemma_eliminate_keeps_undefined(s, diagonal, original, j - 1, n, i, k);
        let t = eliminate_entries(s, diagonal, original, j - 1);
        let d = diagonal[j - 1];
        let r = with_row(t, j - 1, d);
        assert(fits(r, n)) by {
            assert forall|c: int| 0 <= c < n implies n <= (#[trigger] r.columns[c]).len() by {
                assert(n <= t.columns[c].len());
            }
        }
        lemma_rotate_rows_keeps_undefined(r, j - 1, n, n, i, k);
        let e = if d.vanishes() {
            t
        } else {
            rotate_rows(r, j - 1, n)
        };
        assert(fits(e, n));
        assert(n <= e.columns[j - 1].len());
        let v = eliminate_entry(t, j - 1, d, original[j - 1]);
        assert forall|c: int| 0 <= c < n implies n <= (#[trigger] v.columns[c]).len() by {
            assert(n <= e.columns[c].len());
        }
    }
}

/// The partial row of `L * x` is undefined where an entry of that row of `L` is.
proof fn lemma_lower_row_of_undefined<F: Arithmetic>(
    columns: Seq<Seq<F>>,
    x: Seq<F>,
    i: int,
    k: int,
    j: int,
)
    requires
        propagates::<F>(),
        0 <= j < k,
        columns[j][i].undefined(),
    ensures
        lower_row_sum(columns, x, i, k).undefined(),
    decreases k,
{
    if j < k - 1 {
        lemma_lower_row_of_undefined(columns, x, i, k - 1, j);
    }
}

/// A row of the result of `mul_qt_b` is undefined where an entry of that row of `L`, or of that column of
/// `R`, is.
pub proof fn law_mul_of_undefined_entry<F: Arithmetic>(
    columns: Seq<Seq<F>>,
    diagonal: Seq<F>,
    x: Seq<F>,
    i: int,
    j: int,
)
    requires
        propagates::<F>(),
        0 <= j <= i < x.len(),
    ensures
        diagonal[i].undefined() || (j < i && columns[j][i].undefined()) ==> lower_product(
            columns,
            diagonal,
            x,
        )[i].undefined(),
        columns[i][j].undefined() ==> transposed_upper_product(columns, x)[i].undefined(),
{
    reveal(lower_product);
    if j < i && columns[j][i].undefined() {
        lemma_lower_row_of_undefined(columns, x, i, i, j);
    }
    if columns[i][j].undefined() {
        law_dot_undefined(x, columns[i], 0, i + 1, j);
    }
}

} // verus!
