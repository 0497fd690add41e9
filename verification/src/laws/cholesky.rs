//! The laws of the Cholesky factors.
use vstd::prelude::*;
use crate::cholesky::{gather, lower_product, lower_row_sum, transposed_upper_product};
use crate::laws::least_squares::{poses, upper_entry, upper_gram};
use crate::laws::solutions::cholesky_entry;
use crate::laws::sums::{lemma_sum_congruent, lemma_sum_of_zeros, lemma_sum_split, sum};
use crate::laws::triangular::{law_lower_solution, law_transposed_upper_solution};
use crate::laws::vectors::{inner, lemma_dot, values};
use crate::lls::LeastSquares;
use crate::matrix::has_rows;
use crate::scalar::{exact, Arithmetic};
use crate::triangular::{lower_solution, transposed_upper_solution};

verus! {

/// Entry `(i, k)` of the lower triangular matrix `L` whose transpose is the upper triangular part of
/// `columns`.
pub open spec fn transposed_entry<F>(
    val: spec_fn(F) -> real,
    columns: Seq<Seq<F>>,
    i: int,
    k: int,
) -> real {
    if k > i {
        0 as real
    } else {
        val(columns[i][k])
    }
}

/// A sum whose terms are zero from `i + 1` on ends there.
proof fn lemma_sum_ends(f: spec_fn(int) -> real, i: int, n: int)
    requires
        0 <= i < n,
        forall|k: int| i < k < n ==> #[trigger] f(k) == 0 as real,
    ensures
        sum(f, 0, n) == sum(f, 0, i) + f(i),
{
    lemma_sum_split(f, 0, i + 1, n);
    lemma_sum_of_zeros(f, i + 1, n);
}

/// `solve` of a factor with a lower triangular `L` solves `L * x = P^T * b`, where no entry on the
/// diagonal of `L` is zero.
pub proof fn law_solve_lower<F: Arithmetic>(
    val: spec_fn(F) -> real,
    columns: Seq<Seq<F>>,
    l_diag: Seq<F>,
    permutation: Seq<usize>,
    b: Seq<F>,
    m: int,
    i: int,
)
    requires
        exact(val),
        has_rows(columns, m),
        columns.len() <= m,
        l_diag.len() == columns.len(),
        permutation.len() == columns.len(),
        forall|k: int| 0 <= k < columns.len() ==> !(#[trigger] l_diag[k]).vanishes(),
        0 <= i < columns.len(),
    ensures
        ({
            let n = columns.len() as int;
            let x = lower_solution(columns, l_diag, gather(permutation, b), n, n);
            sum(|k: int| cholesky_entry(val, columns, l_diag, i, k) * val(x[k]), 0, n) == val(
                b[permutation[i] as int],
            )
        }),
{
    let n = columns.len() as int;
    let c = gather(permutation, b);
    let x = lower_solution(columns, l_diag, c, n, n);
    assert forall|k: int| 0 <= k < n implies n <= (#[trigger] columns[k]).len() by {}
    law_lower_solution(val, columns, l_diag, c, n, i);
    let f = |k: int| cholesky_entry(val, columns, l_diag, i, k) * val(x[k]);
    assert forall|k: int| i < k < n implies #[trigger] f(k) == 0 as real by {
        let u = val(x[k]);
        assert((0 as real) * u == 0 as real) by (nonlinear_arith);
    }
    lemma_sum_ends(f, i, n);
    lemma_sum_congruent(f, |k: int| val(columns[k][i]) * val(x[k]), 0, i);
}

/// `solve` of a factor with an upper triangular `L^T` solves `L * x = P^T * b`, where no entry on
/// the diagonal of `L` is zero.
pub proof fn law_solve_upper<F: Arithmetic>(
    val: spec_fn(F) -> real,
    columns: Seq<Seq<F>>,
    permutation: Seq<usize>,
    b: Seq<F>,
    m: int,
    i: int,
)
    requires
        exact(val),
        has_rows(columns, m),
        columns.len() <= m,
        permutation.len() == columns.len(),
        forall|k: int| 0 <= k < columns.len() ==> !(#[trigger] columns[k])[k].vanishes(),
        0 <= i < columns.len(),
    ensures
        ({
            let n = columns.len() as int;
            let x = transposed_upper_solution(columns, gather(permutation, b), 0, n);
            sum(|k: int| transposed_entry(val, columns, i, k) * val(x[k]), 0, n) == val(
                b[permutation[i] as int],
            )
        }),
{
    let n = columns.len() as int;
    let c = gather(permutation, b);
    let x = transposed_upper_solution(columns, c, 0, n);
    assert forall|k: int| 0 <= k < n implies n <= (#[trigger] columns[k]).len() && val(
        columns[k][k],
    ) != 0 as real by {}
    law_transposed_upper_solution(val, columns, c, 0, n, i);
    let f = |k: int| transposed_entry(val, columns, i, k) * val(x[k]);
    let g = |k: int| val(columns[i][k]) * val(x[k]);
    assert forall|k: int| i < k < n implies #[trigger] f(k) == 0 as real by {
        let u = val(x[k]);
        assert((0 as real) * u == 0 as real) by (nonlinear_arith);
    }
    lemma_sum_ends(f, i, n);
    lemma_sum_congruent(f, g, 0, i);
    assert(sum(g, 0, i + 1) == sum(g, 0, i) + g(i));
}

/// A partial row of the product with a lower triangular matrix is computed exactly.
proof fn lemma_lower_row_sum<F: Arithmetic>(
    val: spec_fn(F) -> real,
    columns: Seq<Seq<F>>,
    x: Seq<F>,
    i: int,
    k: int,
)
    requires
        exact(val),
    ensures
        val(lower_row_sum(columns, x, i, k)) == sum(
            |q: int| val(columns[q][i]) * val(x[q]),
            0,
            k,
        ),
    decreases k,
{
    if k > 0 {
        lemma_lower_row_sum(val, columns, x, i, k - 1);
        let (a, b) = (val(columns[k - 1][i]), val(x[k - 1]));
        assert(b * a == a * b) by (nonlinear_arith);
    }
}

/// `mul_qt_b` of a factor with a lower triangular `L` computes `L * Q^T * b`.
pub proof fn law_mul_lower<F: Arithmetic>(
    val: spec_fn(F) -> real,
    columns: Seq<Seq<F>>,
    l_diag: Seq<F>,
    x: Seq<F>,
    i: int,
)
    requires
        exact(val),
        0 <= i < x.len(),
    ensures
        lower_product(columns, l_diag, x).len() == x.len(),
        val(lower_product(columns, l_diag, x)[i]) == sum(
            |k: int| cholesky_entry(val, columns, l_diag, i, k) * val(x[k]),
            0,
            x.len() as int,
        ),
{
    reveal(lower_product);
    let n = x.len() as int;
    lemma_lower_row_sum(val, columns, x, i, i);
    let f = |k: int| cholesky_entry(val, columns, l_diag, i, k) * val(x[k]);
    assert forall|k: int| i < k < n implies #[trigger] f(k) == 0 as real by {
        let u = val(x[k]);
        assert((0 as real) * u == 0 as real) by (nonlinear_arith);
    }
    lemma_sum_ends(f, i, n);
    lemma_sum_congruent(f, |q: int| val(columns[q][i]) * val(x[q]), 0, i);
    let (a, b) = (val(l_diag[i]), val(x[i]));
    assert(b * a == a * b) by (nonlinear_arith);
}

/// `mul_qt_b` of a factor with an upper triangular `L^T` computes `L * Q^T * b`.
pub proof fn law_mul_upper<F: Arithmetic>(
    val: spec_fn(F) -> real,
    columns: Seq<Seq<F>>,
    x: Seq<F>,
    m: int,
    i: int,
)
    requires
        exact(val),
        has_rows(columns, m),
        columns.len() <= m,
        x.len() == columns.len(),
        0 <= i < x.len(),
    ensures
        val(transposed_upper_product(columns, x)[i]) == sum(
            |k: int| transposed_entry(val, columns, i, k) * val(x[k]),
            0,
            x.len() as int,
        ),
{
    let n = x.len() as int;
    assert(columns[i].len() == m);
    lemma_dot(val, x, columns[i], 0, i + 1);
    let f = |k: int| transposed_entry(val, columns, i, k) * val(x[k]);
    let g = |k: int| values(val, x)[k] * values(val, columns[i])[k];
    assert forall|k: int| i < k < n implies #[trigger] f(k) == 0 as real by {
        let u = val(x[k]);
        assert((0 as real) * u == 0 as real) by (nonlinear_arith);
    }
    lemma_sum_ends(f, i, n);
    assert forall|k: int| 0 <= k < i + 1 implies #[trigger] f(k) == g(k) by {
        let (a, b) = (val(columns[i][k]), val(x[k]));
        assert(a * b == b * a) by (nonlinear_arith);
    }
    lemma_sum_congruent(f, g, 0, i + 1);
    assert(sum(f, 0, i + 1) == sum(f, 0, i) + f(i));
}

/// `L * L^T = P^T * A^T * A * P` for the factor that `solve_with_zero_diagonal` returns.
pub proof fn law_zero_diagonal_factor<F: Arithmetic>(
    val: spec_fn(F) -> real,
    p: LeastSquares<F>,
    a: Seq<Seq<F>>,
    b: Seq<F>,
    m: int,
    s: int,
    t: int,
)
    requires
        poses(val, p, a, b, m),
        0 <= s < a.len(),
        0 <= t < a.len(),
    ensures
        sum(
            |k: int| transposed_entry(val, p.columns, s, k) * transposed_entry(val, p.columns, t, k),
            0,
            a.len() as int,
        ) == inner(
            values(val, a[p.permutation[s] as int]),
            values(val, a[p.permutation[t] as int]),
            0,
            m,
        ),
{
    lemma_sum_congruent(
        |k: int| transposed_entry(val, p.columns, s, k) * transposed_entry(val, p.columns, t, k),
        |i: int| upper_entry(val, p, i, s) * upper_entry(val, p, i, t),
        0,
        a.len() as int,
    );
    assert(upper_gram(val, p, s, t) == inner(
        values(val, a[p.permutation[s] as int]),
        values(val, a[p.permutation[t] as int]),
        0,
        m,
    ));
}

} // verus!
