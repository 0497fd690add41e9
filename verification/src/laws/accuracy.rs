//! How accurate the results of the solvers are where the arithmetic is rounded.
use vstd::prelude::*;
use crate::cholesky::{gather, lower_product, lower_row_sum, transposed_upper_product};
use crate::laws::backward::{
    column_of, is_row, law_lower_solution_rounded, law_transposed_lower_solution_rounded,
    law_transposed_upper_solution_rounded, law_upper_solution_rounded, lemma_near_quotient,
    lemma_row_congruent, lemma_row_extend, lemma_row_weaken, magnitudes, row_of, terms,
};
use crate::laws::cholesky::transposed_entry;
use crate::laws::least_squares::upper_entry;
use crate::laws::rounding::{
    approx, dot_steps, law_dot_rounded, law_norm_squared_rounded, lemma_approx_absolute,
    lemma_approx_add, lemma_approx_bound, lemma_approx_chain, lemma_approx_product,
    lemma_approx_round, lemma_approx_same, lemma_approx_terms,
};
use crate::laws::solutions::{cholesky_entry, law_solving_keeps_the_problem, lemma_elimination_len};
use crate::laws::sums::{lemma_sum_congruent, sum};
use crate::laws::triangular::{lemma_transposed_lower_solution_keeps, lemma_upper_solution_keeps};
use crate::lls::{
    eliminated, elimination, max_scaled, scattered, solution_with_diagonal,
    solution_with_zero_diagonal, upper_product, upper_row_sum, LeastSquares,
};
use crate::scalar::{absolute, rounded, Arithmetic};
use crate::triangular::{lower_solution, transposed_upper_solution};
use crate::vector::{dot_spec, norm_squared_spec};

verus! {

/// The result `x` of `solve_with_zero_diagonal` satisfies `R * P^T * x = Q^T * b` up to rounding, row
/// by row: `|Q^T * b - R * P^T * x| <= gamma * |R| * |P^T * x|`. Only the rows with a zero on the
/// diagonal of `R` are left out, and there the entry of `P^T * x` is zero.
///
/// In other words, `P^T * x` is the solution of `(R + E) * y = Q^T * b` for some `E` with
/// `|E| <= gamma * |R|`.
pub proof fn law_solve_with_zero_diagonal_rounded<F: Arithmetic>(
    val: spec_fn(F) -> real,
    u: real,
    p: LeastSquares<F>,
    m: int,
    x: Seq<F>,
    i: int,
)
    requires
        rounded(val, u),
        p.wf(m),
        scattered(p.permutation, solution_with_zero_diagonal(p), x),
        0 <= i < p.columns.len(),
    ensures
        ({
            let n = p.columns.len() as int;
            let y = gather(p.permutation, x);
            if val(p.columns[i][i]) == 0 as real {
                val(y[i]) == 0 as real
            } else {
                is_row(
                    val,
                    u,
                    n as nat,
                    val(p.qt_b[i]),
                    |k: int| upper_entry(val, p, i, k),
                    y,
                    0,
                    n,
                )
            }
        }),
{
    let n = p.columns.len() as int;
    let y = gather(p.permutation, x);
    let z = solution_with_zero_diagonal(p);
    lemma_upper_solution_keeps(p.columns, p.qt_b, n);
    assert forall|k: int| 0 <= k < n implies val(#[trigger] z[k]) == val(y[k]) by {
        assert(x[p.permutation[k] as int] == z[k]);
    }
    law_upper_solution_rounded(val, u, p.columns, p.qt_b, n, i);
    if val(p.columns[i][i]) != 0 as real {
        let row = row_of(val, p.columns, i);
        let entries = |k: int| upper_entry(val, p, i, k);
        let c = val(p.qt_b[i]);
        lemma_row_congruent(val, u, (n - i) as nat, c, row, z, entries, y, i, n);
        lemma_row_weaken(val, u, (n - i) as nat, n as nat, c, entries, y, i, n);
        lemma_row_extend(val, u, n as nat, c, entries, y, 0, i, n, n);
    } else {
        assert(val(z[i]) == val(y[i]));
    }
}

/// The result `x` of `solve_with_diagonal` satisfies `L^T * P^T * x = r` up to rounding, row by row, where
/// `L` is the factor that is returned and `r` is the right hand side after the elimination of the diagonal
/// matrix: `|r - L^T * P^T * x| <= gamma * |L^T| * |P^T * x|`. Only the rows with a zero on the
/// diagonal of `L` are left out, and there the entry of `P^T * x` is zero.
pub proof fn law_solve_with_diagonal_rounded<F: Arithmetic>(
    val: spec_fn(F) -> real,
    u: real,
    p: LeastSquares<F>,
    m: int,
    diag: Seq<F>,
    x: Seq<F>,
    i: int,
)
    requires
        rounded(val, u),
        p.wf(m),
        diag.len() == p.columns.len(),
        scattered(p.permutation, solution_with_diagonal(p, diag), x),
        0 <= i < p.columns.len(),
    ensures
        ({
            let n = p.columns.len() as int;
            let q = eliminated(p, diag);
            let y = gather(p.permutation, x);
            if val(q.l_diag[i]) == 0 as real {
                val(y[i]) == 0 as real
            } else {
                is_row(
                    val,
                    u,
                    dot_steps(n),
                    val(elimination(p, diag, p.qt_b).rhs[i]),
                    |k: int| cholesky_entry(val, q.columns, q.l_diag, k, i),
                    y,
                    0,
                    n,
                )
            }
        }),
{
    let n = p.columns.len() as int;
    let q = eliminated(p, diag);
    let e = elimination(p, diag, p.qt_b);
    let y = gather(p.permutation, x);
    let z = solution_with_diagonal(p, diag);
    law_solving_keeps_the_problem(p, diag, m);
    lemma_elimination_len(p, diag, p.qt_b, m);
    lemma_transposed_lower_solution_keeps(e.columns, e.row, e.rhs, 0, n);
    assert forall|k: int| 0 <= k < n implies val(#[trigger] z[k]) == val(y[k]) by {
        assert(x[p.permutation[k] as int] == z[k]);
    }
    law_transposed_lower_solution_rounded(val, u, e.columns, e.row, e.rhs, 0, n, i);
    if val(e.row[i]) != 0 as real {
        let row = |k: int| cholesky_entry(val, q.columns, q.l_diag, k, i);
        let c = val(e.rhs[i]);
        lemma_row_congruent(val, u, dot_steps(n), c, row, z, row, y, i, n);
        lemma_row_extend(val, u, dot_steps(n), c, row, y, 0, i, n, n);
    } else {
        assert(val(z[i]) == val(y[i]));
    }
}

/// `solve` of a factor with a lower triangular `L` solves `L * x = P^T * b` up to rounding, row by row:
/// `|P^T * b - L * x| <= gamma * |L| * |x|` in the rows without a zero on the diagonal of `L`.
pub proof fn law_solve_lower_rounded<F: Arithmetic>(
    val: spec_fn(F) -> real,
    u: real,
    columns: Seq<Seq<F>>,
    l_diag: Seq<F>,
    permutation: Seq<usize>,
    b: Seq<F>,
    i: int,
)
    requires
        rounded(val, u),
        permutation.len() == columns.len(),
        0 <= i < columns.len(),
        !l_diag[i].vanishes(),
    ensures
        ({
            let n = columns.len() as int;
            is_row(
                val,
                u,
                n as nat,
                val(b[permutation[i] as int]),
                |k: int| cholesky_entry(val, columns, l_diag, i, k),
                lower_solution(
                    columns,
                    l_diag,
                    gather(permutation, b),
                    n,
                    n,
                ),
                0,
                n,
            )
        }),
{
    let n = columns.len() as int;
    let c = gather(permutation, b);
    let x = lower_solution(columns, l_diag, c, n, n);
    let row = |k: int| cholesky_entry(val, columns, l_diag, i, k);
    law_lower_solution_rounded(val, u, columns, l_diag, c, n, i);
    lemma_row_extend(val, u, n as nat, val(c[i]), row, x, 0, 0, i + 1, n);
}

/// `solve` of a factor with an upper triangular `L^T` solves `L * x = P^T * b` up to rounding, row by row:
/// `|P^T * b - L * x| <= gamma * |L| * |x|`, where no entry on the diagonal of `L` is zero.
pub proof fn law_solve_upper_rounded<F: Arithmetic>(
    val: spec_fn(F) -> real,
    u: real,
    columns: Seq<Seq<F>>,
    permutation: Seq<usize>,
    b: Seq<F>,
    i: int,
)
    requires
        rounded(val, u),
        permutation.len() == columns.len(),
        0 <= i < columns.len(),
        forall|k: int| 0 <= k < columns.len() ==> !(#[trigger] columns[k])[k].vanishes(),
    ensures
        ({
            let n = columns.len() as int;
            is_row(
                val,
                u,
                dot_steps(n),
                val(b[permutation[i] as int]),
                |k: int| transposed_entry(val, columns, i, k),
                transposed_upper_solution(
                    columns,
                    gather(permutation, b),
                    0,
                    n,
                ),
                0,
                n,
            )
        }),
{
    let n = columns.len() as int;
    let c = gather(permutation, b);
    let x = transposed_upper_solution(columns, c, 0, n);
    let row = |k: int| transposed_entry(val, columns, i, k);
    assert forall|k: int| 0 <= k < n implies val((#[trigger] columns[k])[k]) != 0 as real by {
        assert(!columns[k][k].vanishes());
    }
    law_transposed_upper_solution_rounded(val, u, columns, c, 0, n, i);
    let column = column_of(val, columns, i);
    lemma_row_congruent(val, u, dot_steps(n), val(c[i]), column, x, row, x, 0, i + 1);
    lemma_row_extend(val, u, dot_steps(n), val(c[i]), row, x, 0, 0, i + 1, n);
}

/// The error of a partial row of the product with a lower triangular matrix.
proof fn lemma_lower_row_rounded<F: Arithmetic>(
    val: spec_fn(F) -> real,
    u: real,
    columns: Seq<Seq<F>>,
    x: Seq<F>,
    i: int,
    k: int,
)
    requires
        rounded(val, u),
        0 <= k,
    ensures
        is_row(
            val,
            u,
            (k + 1) as nat,
            val(lower_row_sum(columns, x, i, k)),
            row_of(val, columns, i),
            x,
            0,
            k,
        ),
    decreases k,
{
    let row = row_of(val, columns, i);
    let (f, g) = (terms(val, row, x), magnitudes(val, row, x));
    if k > 0 {
        lemma_lower_row_rounded(val, u, columns, x, i, k - 1);
        let s = lower_row_sum(columns, x, i, k - 1);
        let (a, b) = (x[k - 1], columns[k - 1][i]);
        lemma_approx_add(val, u, k as nat, s, sum(f, 0, k - 1), sum(g, 0, k - 1), a, b);
        lemma_commute(val(a), val(b));
        assert(sum(f, 0, k) == sum(f, 0, k - 1) + f(k - 1));
        assert(sum(g, 0, k) == sum(g, 0, k - 1) + g(k - 1));
    } else {
        lemma_approx_same(u, 1, 0 as real);
    }
}

/// The order of the factors does not matter.
proof fn lemma_commute(a: real, b: real)
    ensures
        a * b == b * a,
        absolute(a) * absolute(b) == absolute(b) * absolute(a),
{
    assert(a * b == b * a) by (nonlinear_arith);
    let (c, d) = (absolute(a), absolute(b));
    assert(c * d == d * c) by (nonlinear_arith);
}

/// `mul_qt_b` of a factor with a lower triangular `L` computes `L * Q^T * b` up to rounding, row by row: the
/// error of row `i` is not greater than `gamma` times row `i` of `|L| * |Q^T * b|`.
pub proof fn law_mul_lower_rounded<F: Arithmetic>(
    val: spec_fn(F) -> real,
    u: real,
    columns: Seq<Seq<F>>,
    l_diag: Seq<F>,
    x: Seq<F>,
    i: int,
)
    requires
        rounded(val, u),
        0 <= i < x.len(),
    ensures
        lower_product(columns, l_diag, x).len() == x.len(),
        is_row(
            val,
            u,
            (x.len() + 1) as nat,
            val(lower_product(columns, l_diag, x)[i]),
            |k: int| cholesky_entry(val, columns, l_diag, i, k),
            x,
            0,
            x.len() as int,
        ),
{
    reveal(lower_product);
    let n = x.len() as int;
    let row = |k: int| cholesky_entry(val, columns, l_diag, i, k);
    let (f, g) = (terms(val, row, x), magnitudes(val, row, x));
    let s = lower_row_sum(columns, x, i, i);
    let c = lower_product(columns, l_diag, x)[i];
    lemma_lower_row_rounded(val, u, columns, x, i, i);
    lemma_row_congruent(
        val,
        u,
        (i + 1) as nat,
        val(s),
        row_of(val, columns, i),
        x,
        row,
        x,
        0,
        i,
    );
    lemma_approx_add(
        val,
        u,
        (i + 1) as nat,
        s,
        sum(f, 0, i),
        sum(g, 0, i),
        x[i],
        l_diag[i],
    );
    lemma_commute(val(x[i]), val(l_diag[i]));
    assert(sum(f, 0, i + 1) == sum(f, 0, i) + f(i));
    assert(sum(g, 0, i + 1) == sum(g, 0, i) + g(i));
    lemma_row_weaken(val, u, (i + 2) as nat, (n + 1) as nat, val(c), row, x, 0, i + 1);
    lemma_row_extend(val, u, (n + 1) as nat, val(c), row, x, 0, 0, i + 1, n);
}

/// `mul_qt_b` of a factor with an upper triangular `L^T` computes `L * Q^T * b` up to rounding, row by row:
/// the error of row `i` is not greater than `gamma` times row `i` of `|L| * |Q^T * b|`.
pub proof fn law_mul_upper_rounded<F: Arithmetic>(
    val: spec_fn(F) -> real,
    u: real,
    columns: Seq<Seq<F>>,
    x: Seq<F>,
    i: int,
)
    requires
        rounded(val, u),
        0 <= i < x.len(),
    ensures
        is_row(
            val,
            u,
            dot_steps(x.len() as int),
            val(transposed_upper_product(columns, x)[i]),
            |k: int| transposed_entry(val, columns, i, k),
            x,
            0,
            x.len() as int,
        ),
{
    let n = x.len() as int;
    let row = |k: int| transposed_entry(val, columns, i, k);
    let (f, g) = (terms(val, row, x), magnitudes(val, row, x));
    let c = transposed_upper_product(columns, x)[i];
    law_dot_rounded(val, u, x, columns[i], 0, i + 1);
    let (d, e) = (
        |j: int| val(x[j]) * val(columns[i][j]),
        |j: int| absolute(val(x[j])) * absolute(val(columns[i][j])),
    );
    assert forall|j: int| 0 <= j < i + 1 implies #[trigger] d(j) == f(j) by {
        lemma_commute(val(x[j]), val(columns[i][j]));
    }
    assert forall|j: int| 0 <= j < i + 1 implies #[trigger] e(j) == g(j) by {
        lemma_commute(val(x[j]), val(columns[i][j]));
    }
    lemma_sum_congruent(d, f, 0, i + 1);
    lemma_sum_congruent(e, g, 0, i + 1);
    lemma_row_weaken(val, u, dot_steps(i + 1), dot_steps(n), val(c), row, x, 0, i + 1);
    lemma_row_extend(val, u, dot_steps(n), val(c), row, x, 0, 0, i + 1, n);
}

/// The error of a partial row of `R * P^T * x`.
proof fn lemma_upper_row_rounded<F: Arithmetic>(
    val: spec_fn(F) -> real,
    u: real,
    p: LeastSquares<F>,
    x: Seq<F>,
    i: int,
    k: int,
)
    requires
        rounded(val, u),
        0 <= i <= k <= p.permutation.len(),
    ensures
        is_row(
            val,
            u,
            (k + 1) as nat,
            val(upper_row_sum(p, x, i, k)),
            row_of(val, p.columns, i),
            gather(p.permutation, x),
            i,
            k,
        ),
    decreases k,
{
    let row = row_of(val, p.columns, i);
    let y = gather(p.permutation, x);
    let (f, g) = (terms(val, row, y), magnitudes(val, row, y));
    if k > i {
        lemma_upper_row_rounded(val, u, p, x, i, k - 1);
        let s = upper_row_sum(p, x, i, k - 1);
        let (a, b) = (x[p.permutation[k - 1] as int], p.columns[k - 1][i]);
        assert(y[k - 1] == a);
        lemma_approx_add(val, u, k as nat, s, sum(f, i, k - 1), sum(g, i, k - 1), a, b);
        lemma_commute(val(a), val(b));
        assert(sum(f, i, k) == sum(f, i, k - 1) + f(k - 1));
        assert(sum(g, i, k) == sum(g, i, k - 1) + g(k - 1));
    } else {
        lemma_approx_same(u, (k + 1) as nat, 0 as real);
    }
}

/// Row `i` of `R * P^T * x`.
pub open spec fn r_times<F>(
    val: spec_fn(F) -> real,
    p: LeastSquares<F>,
    x: Seq<F>,
    i: int,
) -> real {
    sum(
        terms(val, |k: int| upper_entry(val, p, i, k), gather(p.permutation, x)),
        0,
        p.columns.len() as int,
    )
}

/// Row `i` of `|R| * |P^T * x|`.
pub open spec fn r_times_absolute<F>(
    val: spec_fn(F) -> real,
    p: LeastSquares<F>,
    x: Seq<F>,
    i: int,
) -> real {
    sum(
        magnitudes(val, |k: int| upper_entry(val, p, i, k), gather(p.permutation, x)),
        0,
        p.columns.len() as int,
    )
}

/// Each row of `R * P^T * x` is computed up to rounding.
proof fn lemma_upper_product_rounded<F: Arithmetic>(
    val: spec_fn(F) -> real,
    u: real,
    p: LeastSquares<F>,
    x: Seq<F>,
    i: int,
)
    requires
        rounded(val, u),
        p.permutation.len() == p.columns.len(),
        0 <= i < p.columns.len(),
    ensures
        approx(
            u,
            (p.columns.len() + 1) as nat,
            val(upper_product(p, x)[i]),
            r_times(val, p, x, i),
            r_times_absolute(val, p, x, i),
        ),
{
    let n = p.columns.len() as int;
    let y = gather(p.permutation, x);
    let row = row_of(val, p.columns, i);
    let entries = |k: int| upper_entry(val, p, i, k);
    let c = val(upper_product(p, x)[i]);
    lemma_upper_row_rounded(val, u, p, x, i, n);
    lemma_row_congruent(val, u, (n + 1) as nat, c, row, y, entries, y, i, n);
    lemma_row_extend(val, u, (n + 1) as nat, c, entries, y, 0, i, n, n);
}

/// `a_x_norm_squared` computes `|R * P^T * x|^2` up to rounding: the error is not greater than `gamma` times
/// the square of the length of `|R| * |P^T * x|`.
pub proof fn law_a_x_norm_squared_rounded<F: Arithmetic>(
    val: spec_fn(F) -> real,
    u: real,
    p: LeastSquares<F>,
    m: int,
    x: Seq<F>,
)
    requires
        rounded(val, u),
        p.wf(m),
    ensures
        ({
            let n = p.columns.len() as int;
            approx(
                u,
                (3 * n + 8) as nat,
                val(norm_squared_spec(upper_product(p, x))),
                sum(|i: int| r_times(val, p, x, i) * r_times(val, p, x, i), 0, n),
                sum(|i: int| r_times_absolute(val, p, x, i) * r_times_absolute(val, p, x, i), 0, n),
            )
        }),
{
    let n = p.columns.len() as int;
    let r = upper_product(p, x);
    let l = (n + 1) as nat;
    let c = |i: int| val(r[i]) * val(r[i]);
    let e = |i: int| r_times(val, p, x, i) * r_times(val, p, x, i);
    let s = |i: int| r_times_absolute(val, p, x, i) * r_times_absolute(val, p, x, i);
    assert forall|i: int| 0 <= i < n implies approx(u, l + l, #[trigger] c(i), e(i), s(i)) by {
        lemma_upper_product_rounded(val, u, p, x, i);
        let (a, b, d) = (val(r[i]), r_times(val, p, x, i), r_times_absolute(val, p, x, i));
        lemma_approx_product(u, l, l, a, b, d, a, b, d);
    }
    lemma_approx_terms(u, l + l, c, e, s, 0, n);
    law_norm_squared_rounded(val, u, r);
    let (cc, ee, ss) = (sum(c, 0, n), sum(e, 0, n), sum(s, 0, n));
    lemma_approx_bound(u, l + l, cc, ee, ss);
    lemma_approx_chain(u, dot_steps(n), l + l, val(norm_squared_spec(r)), cc, cc, ee, ss);
}

/// Entry `j` of `R^T * Q^T * b`, which is `|A * P * e[j]|` times the quotient for column `j` but for its sign.
pub open spec fn gradient<F>(val: spec_fn(F) -> real, p: LeastSquares<F>, j: int) -> real {
    sum(terms(val, column_of(val, p.columns, j), p.qt_b), 0, j + 1)
}

/// Entry `j` of `|R^T| * |Q^T * b|`.
pub open spec fn gradient_absolute<F>(val: spec_fn(F) -> real, p: LeastSquares<F>, j: int) -> real {
    sum(magnitudes(val, column_of(val, p.columns, j), p.qt_b), 0, j + 1)
}

/// Whether `t` is `|(R^T * Q^T * b)[j]| / |A * P * e[j]|` up to rounding.
pub open spec fn is_quotient<F>(
    val: spec_fn(F) -> real,
    u: real,
    p: LeastSquares<F>,
    j: int,
    t: real,
) -> bool {
    approx(
        u,
        (j + 8) as nat,
        val(p.column_norms[p.permutation[j] as int]) * t,
        absolute(gradient(val, p, j)),
        gradient_absolute(val, p, j),
    )
}

/// A quotient is computed up to rounding.
proof fn lemma_quotient_rounded<F: Arithmetic>(
    val: spec_fn(F) -> real,
    u: real,
    p: LeastSquares<F>,
    j: int,
)
    requires
        rounded(val, u),
        0 <= j,
        val(p.column_norms[p.permutation[j] as int]) != 0 as real,
    ensures
        is_quotient(
            val,
            u,
            p,
            j,
            val(
                dot_spec(p.columns[j], p.qt_b, 0, j + 1).magnitude().over(
                    p.column_norms[p.permutation[j] as int],
                ),
            ),
        ),
{
    let scale = p.column_norms[p.permutation[j] as int];
    let d = dot_spec(p.columns[j], p.qt_b, 0, j + 1);
    let t = val(d.magnitude().over(scale));
    let (g, s) = (gradient(val, p, j), gradient_absolute(val, p, j));
    let row = column_of(val, p.columns, j);
    law_dot_rounded(val, u, p.columns[j], p.qt_b, 0, j + 1);
    lemma_sum_congruent(
        |k: int| val(p.columns[j][k]) * val(p.qt_b[k]),
        terms(val, row, p.qt_b),
        0,
        j + 1,
    );
    lemma_sum_congruent(
        |k: int| absolute(val(p.columns[j][k])) * absolute(val(p.qt_b[k])),
        magnitudes(val, row, p.qt_b),
        0,
        j + 1,
    );
    lemma_approx_absolute(u, dot_steps(j + 1), val(d), g, s);
    lemma_near_quotient(u, t, val(d.magnitude()), val(scale));
    lemma_approx_round(
        u,
        dot_steps(j + 1),
        val(scale) * t,
        val(d.magnitude()),
        absolute(g),
        s,
    );
}

/// Where `max_a_t_b_scaled` returns a number, it is the maximum of the quotients
/// `|(R^T * Q^T * b)[j]| / |A * P * e[j]|` up to rounding: it is one of them, or zero, and none exceeds it.
/// A quotient with the norm zero does not count.
pub proof fn law_max_rounded<F: Arithmetic>(
    val: spec_fn(F) -> real,
    u: real,
    p: LeastSquares<F>,
    k: int,
    v: F,
)
    requires
        rounded(val, u),
        0 <= k,
        max_scaled(p, k) == Some(v),
    ensures
        val(v) >= 0 as real,
        forall|j: int|
            0 <= j < k && val(p.column_norms[#[trigger] p.permutation[j] as int]) != 0 as real
                ==> exists|t: real| t <= val(v) && #[trigger] is_quotient(val, u, p, j, t),
        val(v) == 0 as real || exists|j: int|
            0 <= j < k && val(p.column_norms[p.permutation[j] as int]) != 0 as real
                && #[trigger] is_quotient(val, u, p, j, val(v)),
    decreases k,
{
    if k > 0 {
        let w = max_scaled(p, k - 1)->0;
        law_max_rounded(val, u, p, k - 1, w);
        let scale = p.column_norms[p.permutation[k - 1] as int];
        let q = dot_spec(p.columns[k - 1], p.qt_b, 0, k).magnitude().over(scale);
        if val(scale) != 0 as real {
            lemma_quotient_rounded(val, u, p, k - 1);
        }
        assert(val(w) <= val(v));
        assert forall|j: int|
            0 <= j < k && val(p.column_norms[#[trigger] p.permutation[j] as int])
                != 0 as real implies exists|t: real|
            t <= val(v) && #[trigger] is_quotient(val, u, p, j, t) by {
            if j < k - 1 {
                let t = choose|t: real| t <= val(w) && #[trigger] is_quotient(val, u, p, j, t);
                assert(t <= val(v) && is_quotient(val, u, p, j, t));
            } else {
                assert(val(q) <= val(v) && is_quotient(val, u, p, j, val(q)));
            }
        }
        if v == w && val(v) != 0 as real {
            let j = choose|j: int|
                0 <= j < k - 1 && val(p.column_norms[p.permutation[j] as int]) != 0 as real
                    && #[trigger] is_quotient(val, u, p, j, val(w));
            assert(0 <= j < k && is_quotient(val, u, p, j, val(v)));
        }
        if v != w {
            assert(v == q);
            assert(is_quotient(val, u, p, k - 1, val(v)));
        }
    }
}

} // verus!
