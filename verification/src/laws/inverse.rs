//! The Cholesky factors and the inverse of the matrix of the normal equations.
use vstd::prelude::*;
use crate::cholesky::{gather, lower_product, transposed_upper_product};
use crate::laws::cholesky::{
    law_mul_lower, law_mul_upper, law_solve_lower, law_solve_upper, transposed_entry,
};
use crate::laws::least_squares::{
    lemma_permuted_product, lemma_product_inner, permuted_columns, poses, upper_entry, upper_matrix,
};
use crate::laws::minimum::{diagonal_length, lemma_diagonal_length};
use crate::laws::rank::{
    independent, independent_with, is_zero_vector, law_has_full_rank, lemma_upper_singular,
    lemma_zero_length,
};
use crate::laws::solutions::{
    cholesky_entry, law_solving_keeps_the_problem, lemma_l_l_t_times, lemma_r_t_r_times,
    lemma_solved_row,
};
use crate::laws::sums::{
    lemma_permutation_is_onto, lemma_sum_congruent, lemma_sum_exchange, lemma_sum_of_sums,
    lemma_sum_permuted, lemma_sum_scaled, lemma_sum_split, sum,
};
use crate::laws::triangular::{
    lemma_lower_solution_len, lemma_transposed_lower_solution_keeps,
    lemma_transposed_upper_solution_keeps,
};
use crate::laws::vectors::{inner, lemma_inner_nonnegative, matrix_values, product, values};
use crate::lls::{eliminated, scattered, LeastSquares};
use crate::matrix::has_rows;
use crate::permutation::is_permutation;
use crate::scalar::{exact, Arithmetic};
use crate::triangular::{lower_solution, transposed_lower_solution, transposed_upper_solution};

verus! {

/// Row `t` of `L * x`, for the matrix with the entries `l(i, k)` and `n` rows and columns.
pub open spec fn row_times(l: spec_fn(int, int) -> real, x: Seq<real>, n: int, t: int) -> real {
    sum(|k: int| l(t, k) * x[k], 0, n)
}

/// The vector `L^T * y`, for the matrix with the entries `l(i, k)` and `n` rows and columns.
pub open spec fn transposed_times(
    l: spec_fn(int, int) -> real,
    y: Seq<real>,
    n: int,
) -> Seq<real> {
    Seq::new(n as nat, |q: int| sum(|k: int| l(k, q) * y[k], 0, n))
}

/// Whether the matrix with the entries `l(i, k)` is lower triangular without a zero on its diagonal.
pub open spec fn is_regular_lower(l: spec_fn(int, int) -> real, n: int) -> bool {
    &&& forall|i: int, k: int| 0 <= i < k < n ==> #[trigger] l(i, k) == 0 as real
    &&& forall|i: int| 0 <= i < n ==> #[trigger] l(i, i) != 0 as real
}

/// Whether `(A^T * A + D * D) * z = v`.
pub open spec fn is_normal_product(
    columns: Seq<Seq<real>>,
    d: Seq<real>,
    m: int,
    z: Seq<real>,
    v: Seq<real>,
) -> bool {
    &&& z.len() == columns.len()
    &&& forall|c: int|
        0 <= c < columns.len() ==> inner(#[trigger] columns[c], product(columns, z, m), 0, m)
            + d[c] * d[c] * z[c] == v[c]
}

/// `w . (L^T * y) = y . (L * w)`.
proof fn lemma_transposed_inner(
    l: spec_fn(int, int) -> real,
    w: Seq<real>,
    y: Seq<real>,
    n: int,
)
    requires
        0 <= n,
    ensures
        inner(w, transposed_times(l, y, n), 0, n) == sum(
            |k: int| y[k] * row_times(l, w, n, k),
            0,
            n,
        ),
{
    let lty = transposed_times(l, y, n);
    let f = |q: int, k: int| w[q] * (l(k, q) * y[k]);
    let left = |q: int| w[q] * lty[q];
    let rows = |q: int| sum(|k: int| f(q, k), 0, n);
    assert forall|q: int| 0 <= q < n implies #[trigger] left(q) == rows(q) by {
        lemma_sum_scaled(w[q], |k: int| l(k, q) * y[k], |k: int| f(q, k), 0, n);
    }
    lemma_sum_congruent(left, rows, 0, n);
    lemma_sum_exchange(f, 0, n, 0, n);
    let by_row = |k: int| sum(|q: int| f(q, k), 0, n);
    let right = |k: int| y[k] * row_times(l, w, n, k);
    assert forall|k: int| 0 <= k < n implies #[trigger] by_row(k) == right(k) by {
        let e = y[k];
        let g = |q: int| l(k, q) * w[q];
        let h = |q: int| f(q, k);
        assert forall|q: int| 0 <= q < n implies #[trigger] h(q) == e * g(q) by {
            let (u, v) = (w[q], l(k, q));
            assert(u * (v * e) == e * (v * u)) by (nonlinear_arith);
        }
        lemma_sum_scaled(e, g, h, 0, n);
    }
    lemma_sum_congruent(by_row, right, 0, n);
}

/// `L * x = L * y` only for `x = y`, where `L` is lower triangular without a zero on its diagonal.
pub proof fn lemma_lower_injective(
    l: spec_fn(int, int) -> real,
    x: Seq<real>,
    y: Seq<real>,
    n: int,
    i: int,
)
    requires
        is_regular_lower(l, n),
        0 <= i <= n,
        forall|t: int| 0 <= t < n ==> #[trigger] row_times(l, x, n, t) == row_times(l, y, n, t),
    ensures
        forall|k: int| 0 <= k < i ==> #[trigger] x[k] == y[k],
    decreases i,
{
    if i > 0 {
        let t = i - 1;
        lemma_lower_injective(l, x, y, n, t);
        assert(row_times(l, x, n, t) == row_times(l, y, n, t));
        let f = |k: int| l(t, k) * x[k];
        let g = |k: int| l(t, k) * y[k];
        assert forall|k: int| 0 <= k < t implies #[trigger] f(k) == g(k) by {
            assert(x[k] == y[k]);
        }
        assert forall|k: int| i <= k < n implies #[trigger] f(k) == g(k) by {
            let (e, u, v) = (l(t, k), x[k], y[k]);
            assert(e * u == e * v) by (nonlinear_arith)
                requires
                    e == 0 as real,
            ;
        }
        lemma_sum_split(f, 0, i, n);
        lemma_sum_split(g, 0, i, n);
        lemma_sum_congruent(f, g, 0, t);
        lemma_sum_congruent(f, g, i, n);
        assert(sum(f, 0, i) == sum(f, 0, t) + f(t));
        assert(sum(g, 0, i) == sum(g, 0, t) + g(t));
        let (e, u, v) = (l(t, t), x[t], y[t]);
        assert(u == v) by (nonlinear_arith)
            requires
                e * u == e * v,
                e != 0 as real,
        {
            assert(e * (u - v) == 0 as real);
        }
    }
}

/// `|w|^2 = y . r` where `L * w = r` and `L * L^T * y = r`.
proof fn lemma_factor_length(
    l: spec_fn(int, int) -> real,
    w: Seq<real>,
    y: Seq<real>,
    r: Seq<real>,
    n: int,
)
    requires
        0 <= n,
        w.len() == n,
        is_regular_lower(l, n),
        forall|t: int| 0 <= t < n ==> #[trigger] row_times(l, w, n, t) == r[t],
        forall|t: int|
            0 <= t < n ==> #[trigger] row_times(l, transposed_times(l, y, n), n, t) == r[t],
    ensures
        inner(w, w, 0, n) == sum(|k: int| y[k] * r[k], 0, n),
{
    let lty = transposed_times(l, y, n);
    assert forall|t: int| 0 <= t < n implies #[trigger] row_times(l, w, n, t) == row_times(
        l,
        lty,
        n,
        t,
    ) by {}
    lemma_lower_injective(l, w, lty, n, n);
    assert(w =~= lty);
    lemma_transposed_inner(l, w, y, n);
    lemma_sum_congruent(
        |k: int| y[k] * row_times(l, w, n, k),
        |k: int| y[k] * r[k],
        0,
        n,
    );
}

/// The entries of `z` in the order of the columns of `R`.
spec fn permuted(permutation: Seq<usize>, z: Seq<real>) -> Seq<real> {
    Seq::new(permutation.len(), |k: int| z[permutation[k] as int])
}

/// `y . (P^T * v) = z . v` for `y = P^T * z`.
proof fn lemma_permuted_inner(permutation: Seq<usize>, z: Seq<real>, v: Seq<real>, n: int)
    requires
        is_permutation(permutation, n),
    ensures
        sum(|k: int| permuted(permutation, z)[k] * permuted(permutation, v)[k], 0, n) == inner(
            z,
            v,
            0,
            n,
        ),
{
    let f = |c: int| z[c] * v[c];
    lemma_sum_permuted(f, permutation, n);
    lemma_sum_congruent(
        |k: int| permuted(permutation, z)[k] * permuted(permutation, v)[k],
        |k: int| f(permutation[k] as int),
        0,
        n,
    );
}

/// `|L^T * y|^2 = |A * x|^2 + |D * x|^2` for `x = P * y`.
proof fn lemma_l_length<F: Arithmetic>(
    val: spec_fn(F) -> real,
    p: LeastSquares<F>,
    a: Seq<Seq<F>>,
    b: Seq<F>,
    m: int,
    diag: Seq<F>,
    x: Seq<real>,
)
    requires
        exact(val),
        poses(val, p, a, b, m),
        diag.len() == a.len(),
        x.len() == a.len(),
    ensures
        ({
            let n = a.len() as int;
            let q = eliminated(p, diag);
            let l = |i: int, k: int| cholesky_entry(val, q.columns, q.l_diag, i, k);
            let lty = transposed_times(l, permuted(p.permutation, x), n);
            let ax = product(matrix_values(val, a), x, m);
            inner(lty, lty, 0, n) == inner(ax, ax, 0, m) + diagonal_length(
                values(val, diag),
                x,
                n,
            )
        }),
{
    let n = a.len() as int;
    let q = eliminated(p, diag);
    let l = |i: int, k: int| cholesky_entry(val, q.columns, q.l_diag, i, k);
    let y = permuted(p.permutation, x);
    let lty = transposed_times(l, y, n);
    let ap = permuted_columns(val, a, p.permutation);
    let ax = product(matrix_values(val, a), x, m);
    let d = values(val, diag);
    lemma_permuted_product(val, a, p.permutation, y, x, m);
    lemma_transposed_inner(l, lty, y, n);
    let terms = |k: int| y[k] * row_times(l, lty, n, k);
    let first = |k: int| y[k] * inner(ap[k], ax, 0, m);
    let second = |k: int|
        (d[p.permutation[k] as int] * x[p.permutation[k] as int]) * (d[p.permutation[k] as int]
            * x[p.permutation[k] as int]);
    assert forall|k: int| 0 <= k < n implies #[trigger] terms(k) == first(k) + second(k) by {
        lemma_l_l_t_times(val, p, a, b, m, diag, y, k);
        assert(p.permutation[k] < n);
        lemma_sum_congruent(
            |i: int| l(k, i) * lty[i],
            |i: int| l(k, i) * sum(|j: int| l(j, i) * y[j], 0, n),
            0,
            n,
        );
        let (u, v, w) = (y[k], d[p.permutation[k] as int], inner(ap[k], ax, 0, m));
        assert(u * (w + v * v * u) == u * w + (v * u) * (v * u)) by (nonlinear_arith);
    }
    lemma_sum_of_sums(first, second, terms, 0, n);
    lemma_product_inner(ap, y, ax, m);
    let squares = |c: int| (d[c] * x[c]) * (d[c] * x[c]);
    lemma_sum_permuted(squares, p.permutation, n);
    lemma_sum_congruent(second, |k: int| squares(p.permutation[k] as int), 0, n);
}

/// The upper triangular matrix `L^T` in place of `R`.
spec fn with_l_transposed<F>(p: LeastSquares<F>) -> LeastSquares<F> {
    let n = p.columns.len();
    LeastSquares {
        columns: Seq::new(
            n,
            |k: int|
                Seq::new(
                    n,
                    |i: int|
                        if i < k {
                            p.columns[i][k]
                        } else {
                            p.l_diag[k]
                        },
                ),
        ),
        ..p
    }
}

/// Where the columns of `A` on top of `D` are linearly independent, the factor `L` that
/// `solve_with_diagonal` returns has no zero on its diagonal.
pub proof fn law_l_is_regular<F: Arithmetic>(
    val: spec_fn(F) -> real,
    p: LeastSquares<F>,
    a: Seq<Seq<F>>,
    b: Seq<F>,
    m: int,
    diag: Seq<F>,
)
    requires
        exact(val),
        poses(val, p, a, b, m),
        diag.len() == a.len(),
        independent_with(matrix_values(val, a), values(val, diag), m),
    ensures
        forall|j: int|
            0 <= j < a.len() ==> !(#[trigger] eliminated(p, diag).l_diag[j]).vanishes(),
{
    let n = a.len() as int;
    let q = eliminated(p, diag);
    let columns = matrix_values(val, a);
    let d = values(val, diag);
    law_solving_keeps_the_problem(p, diag, m);
    if exists|j: int| 0 <= j < n && (#[trigger] q.l_diag[j]).vanishes() {
        let l = |i: int, k: int| cholesky_entry(val, q.columns, q.l_diag, i, k);
        let u = with_l_transposed(q);
        let j = choose|j: int| 0 <= j < n && (#[trigger] q.l_diag[j]).vanishes();
        assert(u.columns[j][j] == q.l_diag[j]);
        let y = lemma_upper_singular(val, u, n);
        let x = lemma_unpermuted(p.permutation, y, n);
        assert(permuted(p.permutation, x) =~= y);
        let lty = transposed_times(l, y, n);
        let uy = product(upper_matrix(val, u), y, n);
        assert forall|i: int| 0 <= i < n implies #[trigger] lty[i] == 0 as real by {
            let rm = upper_matrix(val, u);
            lemma_sum_congruent(|k: int| l(k, i) * y[k], |k: int| rm[k][i] * y[k], 0, n);
            assert(uy[i] == 0 as real);
        }
        lemma_zero_length(lty);
        lemma_l_length(val, p, a, b, m, diag, x);
        let ax = product(columns, x, m);
        lemma_inner_nonnegative(ax, 0, m);
        lemma_diagonal_length(d, x, n);
        assert(is_zero_vector(ax));
        let k = choose|k: int| 0 <= k < n && #[trigger] y[k] != 0 as real;
        assert(p.permutation[k] < n);
        assert(x[p.permutation[k] as int] == y[k]);
        assert(!is_zero_vector(x));
    }
}

/// The vector `P * y`.
proof fn lemma_unpermuted(permutation: Seq<usize>, y: Seq<real>, n: int) -> (x: Seq<real>)
    requires
        is_permutation(permutation, n),
        y.len() == n,
    ensures
        x.len() == n,
        forall|k: int| 0 <= k < n ==> x[#[trigger] permutation[k] as int] == y[k],
{
    let x = Seq::new(
        n as nat,
        |c: int| y[choose|k: int| 0 <= k < n && #[trigger] permutation[k] == c],
    );
    assert forall|k: int| 0 <= k < n implies x[#[trigger] permutation[k] as int] == y[k] by {
        let c = permutation[k] as int;
        assert(permutation[k] < n);
        let j = choose|j: int| 0 <= j < n && #[trigger] permutation[j] == c;
        assert(permutation[k] == c);
        assert(permutation[j] == c);
        assert(j == k);
    }
    x
}

/// The factor `L` that `solve_with_diagonal` returns is a regular lower triangular matrix, and
/// `solve` gives the solution of `L * w = P^T * v`.
proof fn lemma_lower_rows<F: Arithmetic>(
    val: spec_fn(F) -> real,
    p: LeastSquares<F>,
    a: Seq<Seq<F>>,
    b: Seq<F>,
    m: int,
    diag: Seq<F>,
    v: Seq<F>,
)
    requires
        exact(val),
        poses(val, p, a, b, m),
        diag.len() == a.len(),
        v.len() == a.len(),
        independent_with(matrix_values(val, a), values(val, diag), m),
    ensures
        ({
            let n = a.len() as int;
            let q = eliminated(p, diag);
            let l = |i: int, k: int| cholesky_entry(val, q.columns, q.l_diag, i, k);
            let w = values(
                val,
                lower_solution(q.columns, q.l_diag, gather(p.permutation, v), n, n),
            );
            &&& w.len() == n
            &&& is_regular_lower(l, n)
            &&& forall|t: int|
                0 <= t < n ==> #[trigger] row_times(l, w, n, t) == permuted(
                    p.permutation,
                    values(val, v),
                )[t]
        }),
{
    let n = a.len() as int;
    let q = eliminated(p, diag);
    let l = |i: int, k: int| cholesky_entry(val, q.columns, q.l_diag, i, k);
    let wf = lower_solution(q.columns, q.l_diag, gather(p.permutation, v), n, n);
    let w = values(val, wf);
    law_solving_keeps_the_problem(p, diag, m);
    law_l_is_regular(val, p, a, b, m, diag);
    lemma_lower_solution_len(q.columns, q.l_diag, gather(p.permutation, v), n, n);
    assert forall|t: int| 0 <= t < n implies #[trigger] row_times(l, w, n, t) == permuted(
        p.permutation,
        values(val, v),
    )[t] by {
        law_solve_lower(val, q.columns, q.l_diag, p.permutation, v, m, t);
        assert(p.permutation[t] < n);
        lemma_sum_congruent(
            |k: int| l(t, k) * w[k],
            |k: int| cholesky_entry(val, q.columns, q.l_diag, t, k) * val(wf[k]),
            0,
            n,
        );
    }
    assert forall|i: int| 0 <= i < n implies #[trigger] l(i, i) != 0 as real by {
        assert(!q.l_diag[i].vanishes());
    }
}

/// `|w|^2 = v . z` for the solution `w` that `solve` of the factor that `solve_with_diagonal` returned
/// gives for `v`, and the `z` with `(A^T * A + D * D) * z = v`. That is, `|w|^2` is
/// `v^T * (A^T * A + D * D)^-1 * v`.
pub proof fn law_solve_lower_length<F: Arithmetic>(
    val: spec_fn(F) -> real,
    p: LeastSquares<F>,
    a: Seq<Seq<F>>,
    b: Seq<F>,
    m: int,
    diag: Seq<F>,
    v: Seq<F>,
    z: Seq<real>,
)
    requires
        exact(val),
        poses(val, p, a, b, m),
        diag.len() == a.len(),
        v.len() == a.len(),
        independent_with(matrix_values(val, a), values(val, diag), m),
        is_normal_product(matrix_values(val, a), values(val, diag), m, z, values(val, v)),
    ensures
        ({
            let n = a.len() as int;
            let q = eliminated(p, diag);
            let w = values(
                val,
                lower_solution(q.columns, q.l_diag, gather(p.permutation, v), n, n),
            );
            inner(w, w, 0, n) == inner(z, values(val, v), 0, n)
        }),
{
    let n = a.len() as int;
    let q = eliminated(p, diag);
    let l = |i: int, k: int| cholesky_entry(val, q.columns, q.l_diag, i, k);
    let w = values(val, lower_solution(q.columns, q.l_diag, gather(p.permutation, v), n, n));
    let y = permuted(p.permutation, z);
    let r = permuted(p.permutation, values(val, v));
    let columns = matrix_values(val, a);
    lemma_lower_rows(val, p, a, b, m, diag, v);
    lemma_permuted_product(val, a, p.permutation, y, z, m);
    let lty = transposed_times(l, y, n);
    assert forall|t: int| 0 <= t < n implies #[trigger] row_times(l, lty, n, t) == r[t] by {
        lemma_l_l_t_times(val, p, a, b, m, diag, y, t);
        let c = p.permutation[t] as int;
        assert(p.permutation[t] < n);
        assert(inner(columns[c], product(columns, z, m), 0, m) + values(val, diag)[c] * values(
            val,
            diag,
        )[c] * z[c] == values(val, v)[c]);
        lemma_sum_congruent(
            |i: int| l(t, i) * lty[i],
            |i: int| l(t, i) * sum(|j: int| l(j, i) * y[j], 0, n),
            0,
            n,
        );
    }
    lemma_factor_length(l, w, y, r, n);
    lemma_permuted_inner(p.permutation, z, values(val, v), n);
    lemma_sum_congruent(
        |k: int| y[k] * r[k],
        |k: int|
            permuted(p.permutation, z)[k] * permuted(p.permutation, values(val, v))[k],
        0,
        n,
    );
}

/// Where the columns of `A` on top of `D` are linearly independent, there is a `z` with
/// `(A^T * A + D * D) * z = v` for every `v`.
pub proof fn law_normal_matrix_is_onto<F: Arithmetic>(
    val: spec_fn(F) -> real,
    p: LeastSquares<F>,
    a: Seq<Seq<F>>,
    b: Seq<F>,
    m: int,
    diag: Seq<F>,
    v: Seq<F>,
)
    requires
        exact(val),
        poses(val, p, a, b, m),
        diag.len() == a.len(),
        v.len() == a.len(),
        independent_with(matrix_values(val, a), values(val, diag), m),
    ensures
        exists|z: Seq<real>|
            is_normal_product(matrix_values(val, a), values(val, diag), m, z, values(val, v)),
{
    let n = a.len() as int;
    let q = eliminated(p, diag);
    let columns = matrix_values(val, a);
    let d = values(val, diag);
    let vs = values(val, v);
    let l = |i: int, k: int| cholesky_entry(val, q.columns, q.l_diag, i, k);
    let wf = lower_solution(q.columns, q.l_diag, gather(p.permutation, v), n, n);
    let w = values(val, wf);
    law_solving_keeps_the_problem(p, diag, m);
    law_l_is_regular(val, p, a, b, m, diag);
    lemma_lower_rows(val, p, a, b, m, diag, v);
    let yf = transposed_lower_solution(q.columns, q.l_diag, wf, 0, n);
    lemma_transposed_lower_solution_keeps(q.columns, q.l_diag, wf, 0, n);
    let y = values(val, yf);
    let z = lemma_unpermuted(p.permutation, y, n);
    let lty = transposed_times(l, y, n);
    assert forall|i: int| 0 <= i < n implies #[trigger] lty[i] == w[i] by {
        assert(!q.l_diag[i].vanishes());
        assert forall|k: int| 0 <= k < n implies n <= (#[trigger] q.columns[k]).len() by {}
        lemma_solved_row(val, q.columns, q.l_diag, wf, n, i);
        lemma_sum_congruent(
            |k: int| l(k, i) * y[k],
            |k: int| cholesky_entry(val, q.columns, q.l_diag, k, i) * val(yf[k]),
            0,
            n,
        );
    }
    lemma_permuted_product(val, a, p.permutation, y, z, m);
    assert forall|c: int| 0 <= c < n implies inner(
        #[trigger] columns[c],
        product(columns, z, m),
        0,
        m,
    ) + d[c] * d[c] * z[c] == vs[c] by {
        lemma_permutation_is_onto(p.permutation, n, c);
        let t = choose|t: int| 0 <= t < n && #[trigger] p.permutation[t] == c;
        lemma_l_l_t_times(val, p, a, b, m, diag, y, t);
        let f = |i: int| l(t, i) * sum(|j: int| l(j, i) * y[j], 0, n);
        let g = |i: int| l(t, i) * w[i];
        assert forall|i: int| 0 <= i < n implies #[trigger] f(i) == g(i) by {
            assert(lty[i] == w[i]);
        }
        lemma_sum_congruent(f, g, 0, n);
        assert(row_times(l, w, n, t) == permuted(p.permutation, vs)[t]);
        assert(z[p.permutation[t] as int] == y[t]);
    }
    assert(is_normal_product(columns, d, m, z, vs));
}

/// `|w|^2 = v . z` for the solution `w` that `solve` of the factor that `solve_with_zero_diagonal`
/// returned gives for `v`, and the `z` with `A^T * A * z = v`, where the columns of `A` are linearly
/// independent. That is, `|w|^2` is `v^T * (A^T * A)^-1 * v`.
pub proof fn law_solve_upper_length<F: Arithmetic>(
    val: spec_fn(F) -> real,
    p: LeastSquares<F>,
    a: Seq<Seq<F>>,
    b: Seq<F>,
    m: int,
    v: Seq<F>,
    z: Seq<real>,
)
    requires
        exact(val),
        poses(val, p, a, b, m),
        v.len() == a.len(),
        independent(matrix_values(val, a), m),
        is_normal_product(
            matrix_values(val, a),
            Seq::new(a.len(), |c: int| 0 as real),
            m,
            z,
            values(val, v),
        ),
    ensures
        ({
            let n = a.len() as int;
            let w = values(
                val,
                transposed_upper_solution(p.columns, gather(p.permutation, v), 0, n),
            );
            inner(w, w, 0, n) == inner(z, values(val, v), 0, n)
        }),
{
    let n = a.len() as int;
    let columns = matrix_values(val, a);
    let zeros = Seq::new(a.len(), |c: int| 0 as real);
    let l = |i: int, k: int| transposed_entry(val, p.columns, i, k);
    let wf = transposed_upper_solution(p.columns, gather(p.permutation, v), 0, n);
    let w = values(val, wf);
    let y = permuted(p.permutation, z);
    let r = permuted(p.permutation, values(val, v));
    law_has_full_rank(val, p, a, b, m);
    lemma_transposed_upper_solution_keeps(p.columns, gather(p.permutation, v), 0, n);
    lemma_permuted_product(val, a, p.permutation, y, z, m);
    assert forall|i: int| 0 <= i < n implies #[trigger] l(i, i) != 0 as real by {
        assert(!p.columns[i][i].vanishes());
    }
    assert forall|t: int| 0 <= t < n implies #[trigger] row_times(l, w, n, t) == r[t] by {
        law_solve_upper(val, p.columns, p.permutation, v, m, t);
        assert(p.permutation[t] < n);
        lemma_sum_congruent(
            |k: int| l(t, k) * w[k],
            |k: int| transposed_entry(val, p.columns, t, k) * val(wf[k]),
            0,
            n,
        );
    }
    let lty = transposed_times(l, y, n);
    assert forall|t: int| 0 <= t < n implies #[trigger] row_times(l, lty, n, t) == r[t] by {
        lemma_upper_rows(val, p, y, n, t);
        lemma_r_t_r_times(val, p, a, b, m, y, t);
        let c = p.permutation[t] as int;
        assert(p.permutation[t] < n);
        assert(inner(columns[c], product(columns, z, m), 0, m) + zeros[c] * zeros[c] * z[c]
            == values(val, v)[c]);
        let (e, u) = (zeros[c], z[c]);
        assert(e * e * u == 0 as real) by (nonlinear_arith)
            requires
                e == 0 as real,
        ;
    }
    lemma_factor_length(l, w, y, r, n);
    lemma_permuted_inner(p.permutation, z, values(val, v), n);
    lemma_sum_congruent(
        |k: int| y[k] * r[k],
        |k: int|
            permuted(p.permutation, z)[k] * permuted(p.permutation, values(val, v))[k],
        0,
        n,
    );
}

/// `R^T * R * y` is `L * L^T * y` for `L = R^T`.
pub proof fn lemma_upper_rows<F>(
    val: spec_fn(F) -> real,
    p: LeastSquares<F>,
    y: Seq<real>,
    n: int,
    t: int,
)
    requires
        0 <= t < n,
    ensures
        ({
            let l = |i: int, k: int| transposed_entry(val, p.columns, i, k);
            let r = |i: int, k: int| upper_entry(val, p, i, k);
            row_times(l, transposed_times(l, y, n), n, t) == sum(
                |i: int| r(i, t) * sum(|k: int| r(i, k) * y[k], 0, n),
                0,
                n,
            )
        }),
{
    let l = |i: int, k: int| transposed_entry(val, p.columns, i, k);
    let r = |i: int, k: int| upper_entry(val, p, i, k);
    let lty = transposed_times(l, y, n);
    let f = |i: int| l(t, i) * lty[i];
    let g = |i: int| r(i, t) * sum(|k: int| r(i, k) * y[k], 0, n);
    assert forall|i: int| 0 <= i < n implies #[trigger] f(i) == g(i) by {
        lemma_sum_congruent(|k: int| l(k, i) * y[k], |k: int| r(i, k) * y[k], 0, n);
    }
    lemma_sum_congruent(f, g, 0, n);
}

/// `solve` gives the `x` for which the rows of `P * L * x` are those of `v`, where `L` has no zero on
/// its diagonal.
proof fn lemma_solve_lower_finds<F: Arithmetic>(
    val: spec_fn(F) -> real,
    columns: Seq<Seq<F>>,
    l_diag: Seq<F>,
    permutation: Seq<usize>,
    x: Seq<real>,
    v: Seq<F>,
    m: int,
)
    requires
        exact(val),
        has_rows(columns, m),
        columns.len() <= m,
        l_diag.len() == columns.len(),
        permutation.len() == columns.len(),
        x.len() == columns.len(),
        forall|k: int| 0 <= k < columns.len() ==> !(#[trigger] l_diag[k]).vanishes(),
        forall|t: int|
            0 <= t < columns.len() ==> row_times(
                |i: int, k: int| cholesky_entry(val, columns, l_diag, i, k),
                x,
                columns.len() as int,
                t,
            ) == val(v[#[trigger] permutation[t] as int]),
    ensures
        ({
            let n = columns.len() as int;
            let w = lower_solution(columns, l_diag, gather(permutation, v), n, n);
            values(val, w) == x
        }),
{
    let n = columns.len() as int;
    let l = |i: int, k: int| cholesky_entry(val, columns, l_diag, i, k);
    let wf = lower_solution(columns, l_diag, gather(permutation, v), n, n);
    let w = values(val, wf);
    lemma_lower_solution_len(columns, l_diag, gather(permutation, v), n, n);
    assert forall|t: int| 0 <= t < n implies #[trigger] row_times(l, w, n, t) == row_times(
        l,
        x,
        n,
        t,
    ) by {
        law_solve_lower(val, columns, l_diag, permutation, v, m, t);
        assert(row_times(l, x, n, t) == val(v[permutation[t] as int]));
        lemma_sum_congruent(
            |k: int| l(t, k) * w[k],
            |k: int| cholesky_entry(val, columns, l_diag, t, k) * val(wf[k]),
            0,
            n,
        );
    }
    assert forall|i: int| 0 <= i < n implies #[trigger] l(i, i) != 0 as real by {
        assert(!l_diag[i].vanishes());
    }
    lemma_lower_injective(l, w, x, n, n);
    assert(w =~= x);
}

/// The sum over the entries of a row of `L` is a row of `L * x`.
proof fn lemma_lower_row_times<F>(
    val: spec_fn(F) -> real,
    columns: Seq<Seq<F>>,
    l_diag: Seq<F>,
    x: Seq<F>,
    n: int,
    t: int,
)
    requires
        x.len() == n,
    ensures
        row_times(
            |i: int, k: int| cholesky_entry(val, columns, l_diag, i, k),
            values(val, x),
            n,
            t,
        ) == sum(|k: int| cholesky_entry(val, columns, l_diag, t, k) * val(x[k]), 0, n),
{
    let l = |i: int, k: int| cholesky_entry(val, columns, l_diag, i, k);
    let y = values(val, x);
    lemma_sum_congruent(
        |k: int| l(t, k) * y[k],
        |k: int| cholesky_entry(val, columns, l_diag, t, k) * val(x[k]),
        0,
        n,
    );
}

/// `solve` undoes `mul_qt_b` for a factor with a lower triangular `L` without a zero on its diagonal:
/// from `v = P * L * Q^T * b` it gives back `Q^T * b`.
pub proof fn law_solve_undoes_mul_lower<F: Arithmetic>(
    val: spec_fn(F) -> real,
    columns: Seq<Seq<F>>,
    l_diag: Seq<F>,
    permutation: Seq<usize>,
    qt_b: Seq<F>,
    v: Seq<F>,
    m: int,
)
    requires
        exact(val),
        has_rows(columns, m),
        columns.len() <= m,
        l_diag.len() == columns.len(),
        permutation.len() == columns.len(),
        qt_b.len() == columns.len(),
        forall|k: int| 0 <= k < columns.len() ==> !(#[trigger] l_diag[k]).vanishes(),
        scattered(permutation, lower_product(columns, l_diag, qt_b), v),
    ensures
        ({
            let n = columns.len() as int;
            let w = lower_solution(columns, l_diag, gather(permutation, v), n, n);
            values(val, w) == values(val, qt_b)
        }),
{
    let n = columns.len() as int;
    let x = values(val, qt_b);
    assert forall|t: int| 0 <= t < n implies row_times(
        |i: int, k: int| cholesky_entry(val, columns, l_diag, i, k),
        x,
        n,
        t,
    ) == val(v[#[trigger] permutation[t] as int]) by {
        lemma_lower_row_times(val, columns, l_diag, qt_b, n, t);
        law_mul_lower(val, columns, l_diag, qt_b, t);
    }
    lemma_solve_lower_finds(val, columns, l_diag, permutation, x, v, m);
}

/// `solve` undoes `mul_qt_b` for a factor with an upper triangular `L^T` without a zero on its diagonal:
/// from `v = P * L * Q^T * b` it gives back `Q^T * b`.
pub proof fn law_solve_undoes_mul_upper<F: Arithmetic>(
    val: spec_fn(F) -> real,
    columns: Seq<Seq<F>>,
    permutation: Seq<usize>,
    qt_b: Seq<F>,
    v: Seq<F>,
    m: int,
)
    requires
        exact(val),
        has_rows(columns, m),
        columns.len() <= m,
        permutation.len() == columns.len(),
        qt_b.len() == columns.len(),
        forall|k: int| 0 <= k < columns.len() ==> !(#[trigger] columns[k])[k].vanishes(),
        scattered(permutation, transposed_upper_product(columns, qt_b), v),
    ensures
        ({
            let n = columns.len() as int;
            let w = transposed_upper_solution(columns, gather(permutation, v), 0, n);
            values(val, w) == values(val, qt_b)
        }),
{
    let n = columns.len() as int;
    let l = |i: int, k: int| transposed_entry(val, columns, i, k);
    let wf = transposed_upper_solution(columns, gather(permutation, v), 0, n);
    let (w, x) = (values(val, wf), values(val, qt_b));
    let mul = transposed_upper_product(columns, qt_b);
    lemma_transposed_upper_solution_keeps(columns, gather(permutation, v), 0, n);
    assert forall|t: int| 0 <= t < n implies #[trigger] row_times(l, w, n, t) == row_times(
        l,
        x,
        n,
        t,
    ) by {
        law_solve_upper(val, columns, permutation, v, m, t);
        law_mul_upper(val, columns, qt_b, m, t);
        assert(v[permutation[t] as int] == mul[t]);
        lemma_sum_congruent(
            |k: int| l(t, k) * w[k],
            |k: int| transposed_entry(val, columns, t, k) * val(wf[k]),
            0,
            n,
        );
        lemma_sum_congruent(
            |k: int| l(t, k) * x[k],
            |k: int| transposed_entry(val, columns, t, k) * val(qt_b[k]),
            0,
            n,
        );
    }
    assert forall|i: int| 0 <= i < n implies #[trigger] l(i, i) != 0 as real by {
        assert(!columns[i][i].vanishes());
    }
    lemma_lower_injective(l, w, x, n, n);
    assert(w =~= x);
}

} // verus!
