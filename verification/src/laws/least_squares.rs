//! The laws of the least squares problems.
use vstd::prelude::*;
use crate::householder::{lemma_reflect_all_len, reflect_all};
use crate::laws::factorization::{
    law_a_p_is_q_r, law_q_is_orthogonal, law_r_t_r, lemma_column_norms_kept, lemma_factorization_wf,
    lemma_q_len, r_column,
};
use crate::laws::reflections::{lemma_reflect_all, q_transposed};
use crate::laws::sums::{
    lemma_permutation_is_onto, lemma_sum_congruent, lemma_sum_exchange, lemma_sum_of_zeros,
    lemma_sum_permuted, lemma_sum_scaled, lemma_sum_split, sum,
};
use crate::laws::vectors::{
    inner, lemma_dot, lemma_inner_symmetric, lemma_norm_squared, lemma_whole_norm, matrix_values,
    product, values,
};
use crate::lls::{max_scaled, upper_product, upper_row_sum, LeastSquares};
use crate::matrix::has_rows;
use crate::permutation::is_permutation;
use crate::qr::{factorization, least_squares, unreduced};
use crate::scalar::{exact, Arithmetic};
use crate::vector::{dot_spec, norm_squared_spec};

verus! {

/// Entry `(i, k)` of `R`.
pub open spec fn upper_entry<F>(
    val: spec_fn(F) -> real,
    p: LeastSquares<F>,
    i: int,
    k: int,
) -> real {
    if i <= k {
        val(p.columns[k][i])
    } else {
        0 as real
    }
}

/// Entry `(k, l)` of `R^T * R`.
pub open spec fn upper_gram<F>(
    val: spec_fn(F) -> real,
    p: LeastSquares<F>,
    k: int,
    l: int,
) -> real {
    sum(
        |i: int| upper_entry(val, p, i, k) * upper_entry(val, p, i, l),
        0,
        p.columns.len() as int,
    )
}

/// Entry `k` of `R^T * Q^T * b`.
pub open spec fn upper_rhs<F>(val: spec_fn(F) -> real, p: LeastSquares<F>, k: int) -> real {
    sum(|i: int| upper_entry(val, p, i, k) * val(p.qt_b[i]), 0, p.columns.len() as int)
}

/// Whether `p` is the least squares problem for the matrix with the columns `a` and `m` rows and
/// the vector `b`:
///
/// - `R^T * R = P^T * A^T * A * P`,
/// - `R^T * Q^T * b = P^T * A^T * b`, and
/// - the column norms are those of `A`.
pub open spec fn poses<F>(
    val: spec_fn(F) -> real,
    p: LeastSquares<F>,
    a: Seq<Seq<F>>,
    b: Seq<F>,
    m: int,
) -> bool {
    &&& p.wf(m)
    &&& p.columns.len() == a.len()
    &&& has_rows(a, m)
    &&& b.len() == m
    &&& forall|k: int, l: int|
        0 <= k < a.len() && 0 <= l < a.len() ==> #[trigger] upper_gram(val, p, k, l) == inner(
            values(val, a[p.permutation[k] as int]),
            values(val, a[p.permutation[l] as int]),
            0,
            m,
        )
    &&& forall|k: int|
        0 <= k < a.len() ==> #[trigger] upper_rhs(val, p, k) == inner(
            values(val, a[p.permutation[k] as int]),
            values(val, b),
            0,
            m,
        )
    &&& forall|c: int|
        0 <= c < a.len() ==> val(#[trigger] p.column_norms[c]) >= 0 as real && val(
            p.column_norms[c],
        ) * val(p.column_norms[c]) == inner(values(val, a[c]), values(val, a[c]), 0, m)
}

/// The problem that is made from the factorization of `A` and the vector `b` is that of `A` and `b`.
pub proof fn law_least_squares_poses<F: Arithmetic>(
    val: spec_fn(F) -> real,
    a: Seq<Seq<F>>,
    b: Seq<F>,
    m: int,
)
    requires
        exact(val),
        a.len() <= m <= usize::MAX,
        has_rows(a, m),
        b.len() == m,
    ensures
        poses(val, least_squares(factorization(a), b), a, b, m),
{
    let n = a.len() as int;
    let f = factorization(a);
    let p = least_squares(f, b);
    lemma_factorization_wf(val, a, m);
    let w = matrix_values(val, f.columns);
    lemma_reflect_all_len(f.columns, b, n);
    assert(has_rows(p.columns, m)) by {
        assert forall|k: int| 0 <= k < p.columns.len() implies (#[trigger] p.columns[k]).len()
            == m by {
            assert(f.columns[k].len() == m);
        }
    }
    assert forall|k: int, i: int| 0 <= k < n && 0 <= i < n implies #[trigger] upper_entry(
        val,
        p,
        i,
        k,
    ) == r_column(val, f, k)[i] by {
        assert(f.columns[k].len() == m);
    }
    assert forall|k: int, l: int| 0 <= k < n && 0 <= l < n implies #[trigger] upper_gram(
        val,
        p,
        k,
        l,
    ) == inner(
        values(val, a[p.permutation[k] as int]),
        values(val, a[p.permutation[l] as int]),
        0,
        m,
    ) by {
        law_r_t_r(val, a, m, k, l);
        let (x, y) = (r_column(val, f, k), r_column(val, f, l));
        assert(f.columns[k].len() == m);
        lemma_inner_upper(x, y, n, m);
        let g = |i: int| upper_entry(val, p, i, k) * upper_entry(val, p, i, l);
        let h = |i: int| x[i] * y[i];
        lemma_sum_congruent(g, h, 0, n);
    }
    let z = q_transposed(w, values(val, b), n);
    lemma_reflect_all(val, f.columns, b, n);
    lemma_q_len(w, values(val, b), n);
    assert forall|k: int| 0 <= k < n implies #[trigger] upper_rhs(val, p, k) == inner(
        values(val, a[p.permutation[k] as int]),
        values(val, b),
        0,
        m,
    ) by {
        assert(f.permutation[k] < n);
        assert(a[f.permutation[k] as int].len() == m);
        let column = values(val, a[f.permutation[k] as int]);
        law_a_p_is_q_r(val, a, m, k);
        law_q_is_orthogonal(val, a, m, column, values(val, b));
        let x = r_column(val, f, k);
        assert(f.columns[k].len() == m);
        lemma_inner_upper(x, z, n, m);
        let g = |i: int| upper_entry(val, p, i, k) * val(p.qt_b[i]);
        let h = |i: int| x[i] * z[i];
        assert forall|i: int| 0 <= i < n implies #[trigger] g(i) == h(i) by {
            assert(p.qt_b[i] == reflect_all(f.columns, b, n)[i]);
            assert(z[i] == val(reflect_all(f.columns, b, n)[i]));
        }
        lemma_sum_congruent(g, h, 0, n);
    }
    lemma_column_norms_kept(a, n);
    assert forall|c: int| 0 <= c < n implies val(#[trigger] p.column_norms[c]) >= 0 as real && val(
        p.column_norms[c],
    ) * val(p.column_norms[c]) == inner(values(val, a[c]), values(val, a[c]), 0, m) by {
        lemma_whole_norm(val, a[c]);
        assert(p.column_norms[c] == unreduced(a).column_norms[c]);
    }
}

/// The dot product with a vector that ends in zeros.
proof fn lemma_inner_upper(x: Seq<real>, y: Seq<real>, n: int, m: int)
    requires
        0 <= n <= m,
        forall|i: int| n <= i < m ==> #[trigger] x[i] == 0 as real,
    ensures
        inner(x, y, 0, m) == inner(x, y, 0, n),
{
    let f = |i: int| x[i] * y[i];
    lemma_sum_split(f, 0, n, m);
    assert forall|i: int| n <= i < m implies #[trigger] f(i) == 0 as real by {
        let (a, b) = (x[i], y[i]);
        assert(a * b == 0 as real) by (nonlinear_arith)
            requires
                a == 0 as real,
        ;
    }
    lemma_sum_of_zeros(f, n, m);
}

/// `(A * x) . v` is the sum of `x[j] * (a[j] . v)`.
pub proof fn lemma_product_inner(
    columns: Seq<Seq<real>>,
    x: Seq<real>,
    v: Seq<real>,
    m: int,
)
    requires
        0 <= m,
    ensures
        inner(product(columns, x, m), v, 0, m) == sum(
            |j: int| x[j] * inner(columns[j], v, 0, m),
            0,
            columns.len() as int,
        ),
{
    let n = columns.len() as int;
    let z = product(columns, x, m);
    let f = |i: int, j: int| x[j] * (columns[j][i] * v[i]);
    let rows = |i: int| sum(|j: int| f(i, j), 0, n);
    let direct = |i: int| z[i] * v[i];
    assert forall|i: int| 0 <= i < m implies #[trigger] direct(i) == rows(i) by {
        let g = |j: int| columns[j][i] * x[j];
        let h = |j: int| f(i, j);
        let e = v[i];
        assert forall|j: int| 0 <= j < n implies #[trigger] h(j) == e * g(j) by {
            let (a, b) = (columns[j][i], x[j]);
            assert(b * (a * e) == e * (a * b)) by (nonlinear_arith);
        }
        lemma_sum_scaled(e, g, h, 0, n);
        let s = sum(g, 0, n);
        assert(s * e == e * s) by (nonlinear_arith);
    }
    lemma_sum_congruent(direct, rows, 0, m);
    lemma_sum_exchange(f, 0, m, 0, n);
    let by_column = |j: int| sum(|i: int| f(i, j), 0, m);
    let goal = |j: int| x[j] * inner(columns[j], v, 0, m);
    assert forall|j: int| 0 <= j < n implies #[trigger] by_column(j) == goal(j) by {
        let c = columns[j];
        lemma_sum_scaled(x[j], |i: int| c[i] * v[i], |i: int| f(i, j), 0, m);
    }
    lemma_sum_congruent(by_column, goal, 0, n);
}

/// `a[j] . (A * x)` is the sum of `x[l] * (a[l] . a[j])`.
pub proof fn lemma_inner_product(columns: Seq<Seq<real>>, x: Seq<real>, v: Seq<real>, m: int)
    requires
        0 <= m,
    ensures
        inner(v, product(columns, x, m), 0, m) == sum(
            |l: int| x[l] * inner(columns[l], v, 0, m),
            0,
            columns.len() as int,
        ),
{
    lemma_product_inner(columns, x, v, m);
    lemma_inner_symmetric(v, product(columns, x, m), 0, m);
}

/// The length of `A * x` depends on the dot products of the columns of `A` only.
proof fn lemma_same_gram(
    columns: Seq<Seq<real>>,
    m: int,
    others: Seq<Seq<real>>,
    n: int,
    x: Seq<real>,
)
    requires
        0 <= m,
        0 <= n,
        columns.len() == others.len(),
        forall|k: int, l: int|
            0 <= k < columns.len() && 0 <= l < columns.len() ==> inner(
                #[trigger] columns[k],
                #[trigger] columns[l],
                0,
                m,
            ) == inner(others[k], others[l], 0, n),
    ensures
        inner(product(columns, x, m), product(columns, x, m), 0, m) == inner(
            product(others, x, n),
            product(others, x, n),
            0,
            n,
        ),
{
    let count = columns.len() as int;
    let u = product(columns, x, m);
    let v = product(others, x, n);
    lemma_product_inner(columns, x, u, m);
    lemma_product_inner(others, x, v, n);
    let f = |j: int| x[j] * inner(columns[j], u, 0, m);
    let g = |j: int| x[j] * inner(others[j], v, 0, n);
    assert forall|j: int| 0 <= j < count implies #[trigger] f(j) == g(j) by {
        lemma_inner_product(columns, x, columns[j], m);
        lemma_inner_product(others, x, others[j], n);
        let s = |l: int| x[l] * inner(columns[l], columns[j], 0, m);
        let t = |l: int| x[l] * inner(others[l], others[j], 0, n);
        assert forall|l: int| 0 <= l < count implies #[trigger] s(l) == t(l) by {
            assert(inner(columns[l], columns[j], 0, m) == inner(others[l], others[j], 0, n));
        }
        lemma_sum_congruent(s, t, 0, count);
    }
    lemma_sum_congruent(f, g, 0, count);
}

/// The columns of `A * P`.
pub open spec fn permuted_columns<F>(
    val: spec_fn(F) -> real,
    a: Seq<Seq<F>>,
    permutation: Seq<usize>,
) -> Seq<Seq<real>> {
    Seq::new(permutation.len(), |k: int| values(val, a[permutation[k] as int]))
}

/// `A * P * y = A * x` for `x = P * y`.
pub proof fn lemma_permuted_product<F>(
    val: spec_fn(F) -> real,
    a: Seq<Seq<F>>,
    permutation: Seq<usize>,
    y: Seq<real>,
    x: Seq<real>,
    m: int,
)
    requires
        0 <= m,
        is_permutation(permutation, a.len() as int),
        y.len() == a.len(),
        x.len() == a.len(),
        forall|k: int| 0 <= k < a.len() ==> x[#[trigger] permutation[k] as int] == y[k],
    ensures
        product(permuted_columns(val, a, permutation), y, m) == product(
            matrix_values(val, a),
            x,
            m,
        ),
{
    let n = a.len() as int;
    let c = permuted_columns(val, a, permutation);
    let d = matrix_values(val, a);
    assert forall|i: int| 0 <= i < m implies #[trigger] product(c, y, m)[i] == product(
        d,
        x,
        m,
    )[i] by {
        let f = |j: int| d[j][i] * x[j];
        lemma_sum_permuted(f, permutation, n);
        let g = |k: int| c[k][i] * y[k];
        let h = |k: int| f(permutation[k] as int);
        assert forall|k: int| 0 <= k < n implies #[trigger] g(k) == h(k) by {
            assert(permutation[k] < n);
        }
        lemma_sum_congruent(g, h, 0, n);
    }
    assert(product(c, y, m) =~= product(d, x, m));
}

/// The columns of `R`.
pub open spec fn upper_matrix<F>(val: spec_fn(F) -> real, p: LeastSquares<F>) -> Seq<Seq<real>> {
    Seq::new(
        p.columns.len(),
        |k: int| Seq::new(p.columns.len(), |i: int| upper_entry(val, p, i, k)),
    )
}

/// `|R * y| = |A * P * y|`.
pub proof fn lemma_upper_length<F>(
    val: spec_fn(F) -> real,
    p: LeastSquares<F>,
    a: Seq<Seq<F>>,
    b: Seq<F>,
    m: int,
    y: Seq<real>,
)
    requires
        poses(val, p, a, b, m),
    ensures
        ({
            let n = a.len() as int;
            let ry = product(upper_matrix(val, p), y, n);
            let apy = product(permuted_columns(val, a, p.permutation), y, m);
            inner(ry, ry, 0, n) == inner(apy, apy, 0, m)
        }),
{
    let n = a.len() as int;
    let rm = upper_matrix(val, p);
    let ap = permuted_columns(val, a, p.permutation);
    assert forall|k: int, l: int| 0 <= k < n && 0 <= l < n implies inner(
        #[trigger] rm[k],
        #[trigger] rm[l],
        0,
        n,
    ) == inner(ap[k], ap[l], 0, m) by {
        assert(upper_gram(val, p, k, l) == inner(ap[k], ap[l], 0, m));
        let f = |i: int| upper_entry(val, p, i, k) * upper_entry(val, p, i, l);
        let g = |i: int| rm[k][i] * rm[l][i];
        lemma_sum_congruent(f, g, 0, n);
    }
    lemma_same_gram(rm, n, ap, m, y);
}

/// A row of `R * P^T * x` is computed exactly.
proof fn lemma_upper_row_sum<F: Arithmetic>(
    val: spec_fn(F) -> real,
    p: LeastSquares<F>,
    x: Seq<F>,
    i: int,
    k: int,
)
    requires
        exact(val),
        0 <= i,
    ensures
        val(upper_row_sum(p, x, i, k)) == sum(
            |q: int| upper_entry(val, p, i, q) * val(x[p.permutation[q] as int]),
            0,
            k,
        ),
    decreases k,
{
    let f = |q: int| upper_entry(val, p, i, q) * val(x[p.permutation[q] as int]);
    if k > 0 {
        lemma_upper_row_sum(val, p, x, i, k - 1);
        let (a, b) = (val(x[p.permutation[k - 1] as int]), upper_entry(val, p, i, k - 1));
        if k <= i {
            lemma_upper_row_sum_zero(val, p, x, i, k);
        } else {
            assert(a * b == b * a) by (nonlinear_arith);
            assert(sum(f, 0, k) == sum(f, 0, k - 1) + f(k - 1));
        }
    }
}

/// Row `i` of `R` holds zeros in the columns before `i`.
proof fn lemma_upper_row_sum_zero<F: Arithmetic>(
    val: spec_fn(F) -> real,
    p: LeastSquares<F>,
    x: Seq<F>,
    i: int,
    k: int,
)
    requires
        k <= i,
    ensures
        sum(
            |q: int| upper_entry(val, p, i, q) * val(x[p.permutation[q] as int]),
            0,
            k,
        ) == 0 as real,
{
    let f = |q: int| upper_entry(val, p, i, q) * val(x[p.permutation[q] as int]);
    assert forall|q: int| 0 <= q < k implies #[trigger] f(q) == 0 as real by {
        let a = val(x[p.permutation[q] as int]);
        assert((0 as real) * a == 0 as real) by (nonlinear_arith);
    }
    lemma_sum_of_zeros(f, 0, k);
}

/// `a_x_norm_squared` computes `|A * x|^2`.
pub proof fn law_a_x_norm_squared<F: Arithmetic>(
    val: spec_fn(F) -> real,
    p: LeastSquares<F>,
    a: Seq<Seq<F>>,
    b: Seq<F>,
    m: int,
    x: Seq<F>,
)
    requires
        exact(val),
        poses(val, p, a, b, m),
        x.len() == a.len(),
    ensures
        ({
            let r = upper_product(p, x);
            let ax = product(matrix_values(val, a), values(val, x), m);
            val(norm_squared_spec(r)) == inner(ax, ax, 0, m)
        }),
{
    let n = a.len() as int;
    let r = upper_product(p, x);
    lemma_norm_squared(val, r);
    let y = Seq::new(n as nat, |k: int| val(x[p.permutation[k] as int]));
    let rm = upper_matrix(val, p);
    // R * P^T * x
    assert(values(val, r) =~= product(rm, y, n)) by {
        assert forall|i: int| 0 <= i < n implies #[trigger] values(val, r)[i] == product(
            rm,
            y,
            n,
        )[i] by {
            lemma_upper_row_sum(val, p, x, i, n);
            let f = |q: int| upper_entry(val, p, i, q) * val(x[p.permutation[q] as int]);
            let g = |q: int| rm[q][i] * y[q];
            lemma_sum_congruent(f, g, 0, n);
        }
    }
    lemma_upper_length(val, p, a, b, m, y);
    assert forall|k: int| 0 <= k < n implies values(val, x)[#[trigger] p.permutation[k] as int]
        == y[k] by {
        assert(p.permutation[k] < n);
    }
    lemma_permuted_product(val, a, p.permutation, y, values(val, x), m);
}

/// `sum` in `max_a_t_b_scaled` is an entry of `A^T * b`.
proof fn lemma_a_t_b<F: Arithmetic>(
    val: spec_fn(F) -> real,
    p: LeastSquares<F>,
    a: Seq<Seq<F>>,
    b: Seq<F>,
    m: int,
    k: int,
)
    requires
        exact(val),
        poses(val, p, a, b, m),
        0 <= k < a.len(),
    ensures
        val(dot_spec(p.columns[k], p.qt_b, 0, k + 1)) == inner(
            values(val, a[p.permutation[k] as int]),
            values(val, b),
            0,
            m,
        ),
{
    let n = a.len() as int;
    assert(p.columns[k].len() == m);
    lemma_dot(val, p.columns[k], p.qt_b, 0, k + 1);
    let f = |i: int| upper_entry(val, p, i, k) * val(p.qt_b[i]);
    let g = |i: int| values(val, p.columns[k])[i] * values(val, p.qt_b)[i];
    assert(upper_rhs(val, p, k) == sum(f, 0, n));
    lemma_sum_split(f, 0, k + 1, n);
    assert forall|i: int| k + 1 <= i < n implies #[trigger] f(i) == 0 as real by {
        let c = val(p.qt_b[i]);
        assert((0 as real) * c == 0 as real) by (nonlinear_arith);
    }
    lemma_sum_of_zeros(f, k + 1, n);
    lemma_sum_congruent(f, g, 0, k + 1);
}

/// The quotient `|(A^T * b)[c]| / |A * e[c]|`, which counts as zero where the norm is zero.
pub open spec fn scaled_gradient<F: Arithmetic>(
    val: spec_fn(F) -> real,
    p: LeastSquares<F>,
    a: Seq<Seq<F>>,
    b: Seq<F>,
    m: int,
    c: int,
) -> real {
    let entry = inner(values(val, a[c]), values(val, b), 0, m);
    let length = val(p.column_norms[c]);
    if length == 0 as real {
        0 as real
    } else if entry < 0 as real {
        (-entry) / length
    } else {
        entry / length
    }
}

/// The largest of the first `k` quotients is found.
proof fn lemma_max_scaled<F: Arithmetic>(
    val: spec_fn(F) -> real,
    p: LeastSquares<F>,
    a: Seq<Seq<F>>,
    b: Seq<F>,
    m: int,
    k: int,
)
    requires
        exact(val),
        poses(val, p, a, b, m),
        0 <= k <= a.len(),
    ensures
        max_scaled(p, k) is Some,
        ({
            let max = val(max_scaled(p, k)->0);
            &&& max >= 0 as real
            &&& forall|i: int|
                0 <= i < k ==> scaled_gradient(
                    val,
                    p,
                    a,
                    b,
                    m,
                    #[trigger] p.permutation[i] as int,
                ) <= max
            &&& max == 0 as real || exists|i: int|
                0 <= i < k && scaled_gradient(
                    val,
                    p,
                    a,
                    b,
                    m,
                    #[trigger] p.permutation[i] as int,
                ) == max
        }),
    decreases k,
{
    if k > 0 {
        lemma_max_scaled(val, p, a, b, m, k - 1);
        lemma_a_t_b(val, p, a, b, m, k - 1);
        let c = p.permutation[k - 1] as int;
        assert(p.permutation[k - 1] < a.len());
        let before = val(max_scaled(p, k - 1)->0);
        let max = val(max_scaled(p, k)->0);
        let g = scaled_gradient(val, p, a, b, m, c);
        let scale = p.column_norms[c];
        let total = dot_spec(p.columns[k - 1], p.qt_b, 0, k);
        if !scale.vanishes() {
            assert(val(total.magnitude().over(scale)) == g);
        }
        assert(before <= max && g <= max);
        assert(max == before || max == g);
        if max != 0 as real {
            if max == before {
                let i = choose|i: int|
                    0 <= i < k - 1 && scaled_gradient(
                        val,
                        p,
                        a,
                        b,
                        m,
                        #[trigger] p.permutation[i] as int,
                    ) == before;
                assert(scaled_gradient(val, p, a, b, m, p.permutation[i] as int) == max);
            } else {
                assert(scaled_gradient(val, p, a, b, m, p.permutation[k - 1] as int) == max);
            }
        }
    }
}

/// `max_a_t_b_scaled` computes the maximum of `|(A^T * b)[c]| / |A * e[c]|` over all columns `c`, where
/// a quotient counts as zero if the norm is zero.
pub proof fn law_max_a_t_b_scaled<F: Arithmetic>(
    val: spec_fn(F) -> real,
    p: LeastSquares<F>,
    a: Seq<Seq<F>>,
    b: Seq<F>,
    m: int,
)
    requires
        exact(val),
        poses(val, p, a, b, m),
    ensures
        max_scaled(p, a.len() as int) is Some,
        ({
            let max = val(max_scaled(p, a.len() as int)->0);
            &&& forall|c: int|
                0 <= c < a.len() ==> #[trigger] scaled_gradient(val, p, a, b, m, c) <= max
            &&& if a.len() == 0 {
                max == 0 as real
            } else {
                exists|c: int|
                    0 <= c < a.len() && #[trigger] scaled_gradient(val, p, a, b, m, c) == max
            }
        }),
{
    let n = a.len() as int;
    lemma_max_scaled(val, p, a, b, m, n);
    let max = val(max_scaled(p, n)->0);
    assert forall|c: int| 0 <= c < n implies #[trigger] scaled_gradient(val, p, a, b, m, c)
        <= max by {
        lemma_permutation_is_onto(p.permutation, n, c);
        let k = choose|k: int| 0 <= k < n && #[trigger] p.permutation[k] == c;
        assert(scaled_gradient(val, p, a, b, m, p.permutation[k] as int) <= max);
    }
    if n > 0 {
        if max == 0 as real {
            lemma_scaled_gradient_nonnegative(val, p, a, b, m, 0);
            assert(scaled_gradient(val, p, a, b, m, 0) == max);
        } else {
            let i = choose|i: int|
                0 <= i < n && scaled_gradient(val, p, a, b, m, #[trigger] p.permutation[i] as int)
                    == max;
            assert(p.permutation[i] < n);
            assert(scaled_gradient(val, p, a, b, m, p.permutation[i] as int) == max);
        }
    }
}

/// The quotients are not negative.
proof fn lemma_scaled_gradient_nonnegative<F: Arithmetic>(
    val: spec_fn(F) -> real,
    p: LeastSquares<F>,
    a: Seq<Seq<F>>,
    b: Seq<F>,
    m: int,
    c: int,
)
    requires
        poses(val, p, a, b, m),
        0 <= c < a.len(),
    ensures
        scaled_gradient(val, p, a, b, m, c) >= 0 as real,
{
    let entry = inner(values(val, a[c]), values(val, b), 0, m);
    let length = val(p.column_norms[c]);
    if length != 0 as real {
        assert(length > 0 as real);
        let e = if entry < 0 as real {
            -entry
        } else {
            entry
        };
        let q = e / length;
        assert(q >= 0 as real) by (nonlinear_arith)
            requires
                q == e / length,
                e >= 0 as real,
                length > 0 as real,
        ;
    }
}

} // verus!
