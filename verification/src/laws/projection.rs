//! What `Q^T * b` tells about the distance of `b` from the range of `A`.
use vstd::prelude::*;
use crate::householder::{lemma_reflect_all_len, reflect_all};
use crate::laws::cholesky::transposed_entry;
use crate::laws::factorization::{law_q_is_orthogonal, lemma_factorization_wf, lemma_q_len};
use crate::laws::inverse::{
    is_regular_lower, lemma_lower_injective, lemma_upper_rows, row_times, transposed_times,
};
use crate::laws::least_squares::{
    lemma_permuted_product, lemma_product_inner, lemma_upper_length, poses, upper_entry,
    upper_matrix, upper_rhs,
};
use crate::laws::minimum::{
    law_normal_equations_minimize_residual, normal_equations, residual, residual_length,
};
use crate::laws::rank::{independent, is_zero_vector, law_has_full_rank};
use crate::laws::reflections::{lemma_reflect_all, q_transposed};
use crate::laws::solutions::lemma_r_t_r_times;
use crate::laws::sums::{lemma_sum_congruent, lemma_sum_of_zeros, lemma_sum_split};
use crate::laws::vectors::{
    inner, lemma_inner_congruent, lemma_inner_linear, lemma_inner_nonnegative,
    lemma_inner_symmetric, matrix_values, product, values,
};
use crate::lls::LeastSquares;
use crate::matrix::has_rows;
use crate::qr::{factorization, least_squares};
use crate::scalar::{exact, Arithmetic};

verus! {

/// The first `n` entries of `Q^T * b` are not longer than `b`, and are as long for a square matrix.
pub proof fn law_qt_b_is_bounded<F: Arithmetic>(
    val: spec_fn(F) -> real,
    a: Seq<Seq<F>>,
    b: Seq<F>,
    m: int,
)
    requires
        exact(val),
        a.len() <= m <= usize::MAX,
        has_rows(a, m),
        b.len() == m,
    ensures
        ({
            let n = a.len() as int;
            let qt_b = values(val, least_squares(factorization(a), b).qt_b);
            let w = values(val, b);
            &&& inner(qt_b, qt_b, 0, n) <= inner(w, w, 0, m)
            &&& m == n ==> inner(qt_b, qt_b, 0, n) == inner(w, w, 0, m)
        }),
{
    let n = a.len() as int;
    let f = factorization(a);
    let p = least_squares(f, b);
    let columns = matrix_values(val, f.columns);
    let (qt_b, w) = (values(val, p.qt_b), values(val, b));
    lemma_factorization_wf(val, a, m);
    lemma_reflect_all_len(f.columns, b, n);
    lemma_reflect_all(val, f.columns, b, n);
    lemma_q_len(columns, w, n);
    law_q_is_orthogonal(val, a, m, w, w);
    let z = q_transposed(columns, w, n);
    lemma_sum_split(|i: int| z[i] * z[i], 0, n, m);
    lemma_inner_nonnegative(z, n, m);
    assert forall|i: int| 0 <= i < n implies #[trigger] qt_b[i] == z[i] by {
        assert(p.qt_b[i] == reflect_all(f.columns, b, n)[i]);
        assert(z[i] == val(reflect_all(f.columns, b, n)[i]));
    }
    lemma_inner_congruent(qt_b, qt_b, z, z, 0, n);
}

/// `|b|^2 = |A * x|^2 + |A * x - b|^2` for a solution of `A^T * A * x = A^T * b`.
proof fn lemma_pythagoras(
    columns: Seq<Seq<real>>,
    zeros: Seq<real>,
    b: Seq<real>,
    m: int,
    x: Seq<real>,
)
    requires
        0 <= m,
        forall|c: int| 0 <= c < columns.len() ==> #[trigger] zeros[c] == 0 as real,
        normal_equations(columns, zeros, b, m, x),
    ensures
        ({
            let ax = product(columns, x, m);
            inner(b, b, 0, m) == inner(ax, ax, 0, m) + residual_length(columns, b, m, x)
        }),
{
    let n = columns.len() as int;
    let ax = product(columns, x, m);
    let r = residual(columns, b, m, x);
    let one = 1 as real;
    assert forall|i: int| 0 <= i < m implies #[trigger] r[i] == ax[i] + (-one) * b[i] by {}
    assert(inner(ax, r, 0, m) == 0 as real) by {
        lemma_product_inner(columns, x, r, m);
        let f = |c: int| x[c] * inner(columns[c], r, 0, m);
        assert forall|c: int| 0 <= c < n implies #[trigger] f(c) == 0 as real by {
            lemma_inner_symmetric(columns[c], r, 0, m);
            lemma_inner_symmetric(columns[c], ax, 0, m);
            lemma_inner_symmetric(columns[c], b, 0, m);
            lemma_inner_linear(r, ax, -one, b, columns[c], 0, m);
            assert(inner(columns[c], ax, 0, m) + zeros[c] * zeros[c] * x[c] == inner(
                columns[c],
                b,
                0,
                m,
            ));
            let (e, u, v) = (zeros[c], x[c], inner(columns[c], r, 0, m));
            assert(e * e * u == 0 as real) by (nonlinear_arith)
                requires
                    e == 0 as real,
            ;
            assert(u * v == 0 as real) by (nonlinear_arith)
                requires
                    v == 0 as real,
            ;
        }
        lemma_sum_of_zeros(f, 0, n);
    }
    lemma_inner_linear(r, ax, -one, b, r, 0, m);
    lemma_inner_linear(r, ax, -one, b, ax, 0, m);
    lemma_inner_linear(r, ax, -one, b, b, 0, m);
    lemma_inner_symmetric(r, ax, 0, m);
    lemma_inner_symmetric(b, ax, 0, m);
    lemma_inner_symmetric(b, r, 0, m);
}

/// Where the columns of `A` are linearly independent, `R * P^T * x = Q^T * b` for the solution of
/// `A^T * A * x = A^T * b`, and `|Q^T * b|^2 = |b|^2 - |A * x - b|^2` for the first `n` entries of
/// `Q^T * b`, where `|A * x - b|^2` is the least that it can be. The entries are zero where `b` is
/// orthogonal to all columns of `A`.
pub proof fn law_qt_b_is_projection<F: Arithmetic>(
    val: spec_fn(F) -> real,
    p: LeastSquares<F>,
    a: Seq<Seq<F>>,
    b: Seq<F>,
    m: int,
    x: Seq<real>,
)
    requires
        exact(val),
        poses(val, p, a, b, m),
        independent(matrix_values(val, a), m),
        x.len() == a.len(),
        normal_equations(
            matrix_values(val, a),
            Seq::new(a.len(), |c: int| 0 as real),
            values(val, b),
            m,
            x,
        ),
    ensures
        ({
            let n = a.len() as int;
            let columns = matrix_values(val, a);
            let (qt_b, w) = (values(val, p.qt_b), values(val, b));
            &&& product(
                upper_matrix(val, p),
                Seq::new(a.len(), |k: int| x[p.permutation[k] as int]),
                n,
            ) == qt_b
            &&& inner(qt_b, qt_b, 0, n) == inner(w, w, 0, m) - residual_length(columns, w, m, x)
            &&& forall|z: Seq<real>|
                residual_length(columns, w, m, x) <= #[trigger] residual_length(columns, w, m, z)
            &&& (forall|c: int|
                0 <= c < n ==> inner(#[trigger] columns[c], w, 0, m) == 0 as real)
                ==> is_zero_vector(qt_b)
        }),
{
    let n = a.len() as int;
    let columns = matrix_values(val, a);
    let zeros = Seq::new(a.len(), |c: int| 0 as real);
    let (qt_b, w) = (values(val, p.qt_b), values(val, b));
    let y = Seq::new(a.len(), |k: int| x[p.permutation[k] as int]);
    let ry = product(upper_matrix(val, p), y, n);
    let l = |i: int, k: int| transposed_entry(val, p.columns, i, k);
    law_has_full_rank(val, p, a, b, m);
    lemma_permuted_product(val, a, p.permutation, y, x, m);
    assert(is_regular_lower(l, n)) by {
        assert forall|i: int| 0 <= i < n implies #[trigger] l(i, i) != 0 as real by {
            assert(!p.columns[i][i].vanishes());
        }
    }
    let lty = transposed_times(l, y, n);
    assert(lty =~= ry) by {
        assert forall|i: int| 0 <= i < n implies #[trigger] lty[i] == ry[i] by {
            let rm = upper_matrix(val, p);
            lemma_sum_congruent(|k: int| l(k, i) * y[k], |k: int| rm[k][i] * y[k], 0, n);
        }
    }
    assert forall|t: int| 0 <= t < n implies #[trigger] row_times(l, lty, n, t) == row_times(
        l,
        qt_b,
        n,
        t,
    ) by {
        lemma_upper_rows(val, p, y, n, t);
        lemma_r_t_r_times(val, p, a, b, m, y, t);
        lemma_qt_b_row(val, p, n, t);
        let c = p.permutation[t] as int;
        assert(p.permutation[t] < n);
        assert(upper_rhs(val, p, t) == inner(columns[c], w, 0, m));
        assert(inner(columns[c], product(columns, x, m), 0, m) + zeros[c] * zeros[c] * x[c]
            == inner(columns[c], w, 0, m));
        let (e, u) = (zeros[c], x[c]);
        assert(e * e * u == 0 as real) by (nonlinear_arith)
            requires
                e == 0 as real,
        ;
    }
    lemma_lower_injective(l, lty, qt_b, n, n);
    assert(ry =~= qt_b);
    lemma_upper_length(val, p, a, b, m, y);
    lemma_pythagoras(columns, zeros, w, m, x);
    assert forall|z: Seq<real>|
        residual_length(columns, w, m, x) <= #[trigger] residual_length(columns, w, m, z) by {
        law_normal_equations_minimize_residual(columns, zeros, w, m, x, z);
    }
    if forall|c: int| 0 <= c < n ==> inner(#[trigger] columns[c], w, 0, m) == 0 as real {
        let none = Seq::new(n as nat, |i: int| 0 as real);
        assert forall|t: int| 0 <= t < n implies #[trigger] row_times(l, none, n, t)
            == row_times(l, qt_b, n, t) by {
            lemma_qt_b_row(val, p, n, t);
            assert(p.permutation[t] < n);
            assert(upper_rhs(val, p, t) == inner(
                columns[p.permutation[t] as int],
                w,
                0,
                m,
            ));
            let f = |k: int| l(t, k) * none[k];
            assert forall|k: int| 0 <= k < n implies #[trigger] f(k) == 0 as real by {
                let (u, v) = (l(t, k), none[k]);
                assert(u * v == 0 as real) by (nonlinear_arith)
                    requires
                        v == 0 as real,
                ;
            }
            lemma_sum_of_zeros(f, 0, n);
        }
        lemma_lower_injective(l, none, qt_b, n, n);
        assert forall|i: int| 0 <= i < n implies #[trigger] qt_b[i] == 0 as real by {
            assert(none[i] == qt_b[i]);
        }
    }
}

/// `R^T * Q^T * b` is `L * Q^T * b` for `L = R^T`.
proof fn lemma_qt_b_row<F>(val: spec_fn(F) -> real, p: LeastSquares<F>, n: int, t: int)
    requires
        p.columns.len() == n,
        p.qt_b.len() == n,
    ensures
        ({
            let l = |i: int, k: int| transposed_entry(val, p.columns, i, k);
            row_times(l, values(val, p.qt_b), n, t) == upper_rhs(val, p, t)
        }),
{
    let l = |i: int, k: int| transposed_entry(val, p.columns, i, k);
    lemma_sum_congruent(
        |k: int| l(t, k) * values(val, p.qt_b)[k],
        |i: int| upper_entry(val, p, i, t) * val(p.qt_b[i]),
        0,
        n,
    );
}

} // verus!
