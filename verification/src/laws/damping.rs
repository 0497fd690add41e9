//! How the solutions depend on the diagonal matrix.
use vstd::prelude::*;
use crate::laws::least_squares::poses;
use crate::laws::minimum::{
    diagonal_length, law_objective_splits, law_solution_is_unique, law_solutions_differ_by_kernel,
    lemma_diagonal_length, lemma_kernel_diagonal, normal_equations, objective, residual_length,
};
use crate::laws::rank::{graded, independent_with, is_zero_vector, lemma_zero_length};
use crate::laws::solutions::law_solve_with_diagonal;
use crate::laws::sums::{lemma_sum_congruent, lemma_sum_scaled};
use crate::laws::vectors::{inner, lemma_inner_nonnegative, matrix_values, product, values};
use crate::lls::{scattered, solution_with_diagonal, LeastSquares};
use crate::scalar::{exact, Arithmetic};

verus! {

/// `|s * D * x|^2 = s^2 * |D * x|^2`.
proof fn lemma_diagonal_scaled(s: real, d: Seq<real>, e: Seq<real>, x: Seq<real>, n: int)
    requires
        forall|c: int| 0 <= c < n ==> #[trigger] e[c] == s * d[c],
    ensures
        diagonal_length(e, x, n) == s * s * diagonal_length(d, x, n),
{
    let f = |c: int| (d[c] * x[c]) * (d[c] * x[c]);
    let g = |c: int| (e[c] * x[c]) * (e[c] * x[c]);
    assert forall|c: int| 0 <= c < n implies #[trigger] g(c) == (s * s) * f(c) by {
        let (u, v, w) = (d[c], x[c], e[c]);
        assert(w == s * u);
        let q = u * v;
        assert(w * v == s * q) by (nonlinear_arith)
            requires
                w == s * u,
                q == u * v,
        ;
        assert((s * q) * (s * q) == (s * s) * (q * q)) by (nonlinear_arith);
    }
    lemma_sum_scaled(s * s, f, g, 0, n);
}

/// Where the differences of two sums of squares are as they are for solutions with two multiples
/// of one diagonal matrix, the sums are in order.
proof fn lemma_in_order(
    s: real,
    t: real,
    fx: real,
    gx: real,
    fz: real,
    gz: real,
    ah: real,
    dh: real,
)
    requires
        (0 as real) < s < t,
        ah >= 0 as real,
        dh >= 0 as real,
        fz + s * s * gz == fx + s * s * gx + ah + s * s * dh,
        fx + t * t * gx == fz + t * t * gz + ah + t * t * dh,
    ensures
        gz <= gx,
        fx <= fz,
{
    let (u, v) = (s * s, t * t);
    assert((0 as real) < u < v) by (nonlinear_arith)
        requires
            (0 as real) < s < t,
            u == s * s,
            v == t * t,
    ;
    let (p, q) = (u * dh, v * dh);
    assert(p >= 0 as real && q >= 0 as real) by (nonlinear_arith)
        requires
            u > 0 as real,
            v > 0 as real,
            dh >= 0 as real,
            p == u * dh,
            q == v * dh,
    ;
    let (a, b, c, d) = (u * gz, u * gx, v * gx, v * gz);
    assert(c - b - (d - a) == ah + ah + p + q);
    let g = gx - gz;
    assert((v - u) * g == c - b - (d - a)) by (nonlinear_arith)
        requires
            g == gx - gz,
            a == u * gz,
            b == u * gx,
            c == v * gx,
            d == v * gz,
    ;
    let w = v - u;
    assert(g >= 0 as real) by (nonlinear_arith)
        requires
            w > 0 as real,
            w * g >= 0 as real,
    ;
    assert(b - a >= 0 as real) by (nonlinear_arith)
        requires
            u > 0 as real,
            g >= 0 as real,
            g == gx - gz,
            a == u * gz,
            b == u * gx,
    ;
    // fz = fx + (b - a) + ah + p
}

/// For solutions `x` and `z` with the diagonal matrices `s * D` and `t * D`, where `s <= t`,
/// `|D * z|` is not greater than `|D * x|`, and `|A * x - b|` is not greater than `|A * z - b|`.
pub proof fn law_normal_equations_damped(
    columns: Seq<Seq<real>>,
    d: Seq<real>,
    b: Seq<real>,
    m: int,
    s: real,
    t: real,
    ds: Seq<real>,
    dt: Seq<real>,
    x: Seq<real>,
    z: Seq<real>,
)
    requires
        0 <= m,
        (0 as real) < s <= t,
        forall|c: int| 0 <= c < columns.len() ==> #[trigger] ds[c] == s * d[c],
        forall|c: int| 0 <= c < columns.len() ==> #[trigger] dt[c] == t * d[c],
        normal_equations(columns, ds, b, m, x),
        normal_equations(columns, dt, b, m, z),
    ensures
        diagonal_length(d, z, columns.len() as int) <= diagonal_length(d, x, columns.len() as int),
        residual_length(columns, b, m, x) <= residual_length(columns, b, m, z),
{
    let n = columns.len() as int;
    let h = Seq::new(n as nat, |c: int| z[c] - x[c]);
    let k = Seq::new(n as nat, |c: int| x[c] - z[c]);
    let ah = product(columns, h, m);
    law_objective_splits(columns, ds, b, m, x, z);
    law_objective_splits(columns, dt, b, m, z, x);
    lemma_diagonal_scaled(s, d, ds, x, n);
    lemma_diagonal_scaled(s, d, ds, z, n);
    lemma_diagonal_scaled(s, d, ds, h, n);
    lemma_diagonal_scaled(t, d, dt, x, n);
    lemma_diagonal_scaled(t, d, dt, z, n);
    lemma_diagonal_scaled(t, d, dt, k, n);
    lemma_opposite(columns, d, h, k, m);
    lemma_inner_nonnegative(ah, 0, m);
    lemma_diagonal_length(d, h, n);
    if s < t {
        lemma_in_order(
            s,
            t,
            residual_length(columns, b, m, x),
            diagonal_length(d, x, n),
            residual_length(columns, b, m, z),
            diagonal_length(d, z, n),
            inner(ah, ah, 0, m),
            diagonal_length(d, h, n),
        );
    } else {
        assert forall|c: int| 0 <= c < n implies inner(
            #[trigger] columns[c],
            product(columns, z, m),
            0,
            m,
        ) + ds[c] * ds[c] * z[c] == inner(columns[c], b, 0, m) by {
            assert(ds[c] == s * d[c] && dt[c] == s * d[c]);
        }
        law_solutions_differ_by_kernel(columns, ds, b, m, x, z);
        assert(is_zero_vector(ah));
        let f = |c: int| (d[c] * x[c]) * (d[c] * x[c]);
        let g = |c: int| (d[c] * z[c]) * (d[c] * z[c]);
        assert forall|c: int| 0 <= c < n implies #[trigger] f(c) == g(c) by {
            let (u, v, w, e, y) = (d[c], x[c], z[c], ds[c], h[c]);
            assert(ds[c] * h[c] == 0 as real);
            assert(u * v == u * w) by (nonlinear_arith)
                requires
                    e == s * u,
                    y == w - v,
                    e * y == 0 as real,
                    s > 0 as real,
            {
                assert(e * y == s * (u * y)) by (nonlinear_arith)
                    requires
                        e == s * u,
                ;
                let q = u * y;
                assert(q == 0 as real) by (nonlinear_arith)
                    requires
                        s * q == 0 as real,
                        s > 0 as real,
                ;
                assert(u * y == u * w - u * v) by (nonlinear_arith)
                    requires
                        y == w - v,
                ;
            }
        }
        lemma_sum_congruent(f, g, 0, n);
        assert(diagonal_length(d, x, n) == diagonal_length(d, z, n));
        lemma_kernel_diagonal(ds, h, n);
        lemma_zero_length(ah);
        assert(objective(columns, ds, b, m, z) == objective(columns, ds, b, m, x));
    }
}

/// `|A * h|^2` and `|D * h|^2` do not change with the sign of `h`.
proof fn lemma_opposite(
    columns: Seq<Seq<real>>,
    d: Seq<real>,
    h: Seq<real>,
    k: Seq<real>,
    m: int,
)
    requires
        0 <= m,
        forall|c: int| 0 <= c < columns.len() ==> #[trigger] k[c] == -h[c],
    ensures
        inner(product(columns, k, m), product(columns, k, m), 0, m) == inner(
            product(columns, h, m),
            product(columns, h, m),
            0,
            m,
        ),
        diagonal_length(d, k, columns.len() as int) == diagonal_length(
            d,
            h,
            columns.len() as int,
        ),
{
    let n = columns.len() as int;
    let ah = product(columns, h, m);
    let ak = product(columns, k, m);
    let f = |i: int| ak[i] * ak[i];
    let g = |i: int| ah[i] * ah[i];
    assert forall|i: int| 0 <= i < m implies #[trigger] f(i) == g(i) by {
        let u = |j: int| columns[j][i] * h[j];
        let v = |j: int| columns[j][i] * k[j];
        assert forall|j: int| 0 <= j < n implies #[trigger] v(j) == (-(1 as real)) * u(j) by {
            let (a, y, w) = (columns[j][i], h[j], k[j]);
            assert(k[j] == -h[j]);
            assert(a * w == (-(1 as real)) * (a * y)) by (nonlinear_arith)
                requires
                    w == -y,
            ;
        }
        lemma_sum_scaled(-(1 as real), u, v, 0, n);
        let (y, w) = (ah[i], ak[i]);
        assert(w * w == y * y) by (nonlinear_arith)
            requires
                w == (-(1 as real)) * y,
        ;
    }
    lemma_sum_congruent(f, g, 0, m);
    let f = |c: int| (d[c] * k[c]) * (d[c] * k[c]);
    let g = |c: int| (d[c] * h[c]) * (d[c] * h[c]);
    assert forall|c: int| 0 <= c < n implies #[trigger] f(c) == g(c) by {
        let (u, y, w) = (d[c], h[c], k[c]);
        assert(k[c] == -h[c]);
        let (p, q) = (u * y, u * w);
        assert(q == -p) by (nonlinear_arith)
            requires
                w == -y,
                p == u * y,
                q == u * w,
        ;
        assert(q * q == p * p) by (nonlinear_arith)
            requires
                q == -p,
        ;
    }
    lemma_sum_congruent(f, g, 0, n);
}

/// Where `solve_with_diagonal` is called with two multiples of one diagonal matrix `D`, the solution `z`
/// for the greater one has an `|D * z|` that is not greater and an `|A * z - b|` that is not less
/// than for the other.
pub proof fn law_solve_with_diagonal_damped<F: Arithmetic>(
    val: spec_fn(F) -> real,
    p: LeastSquares<F>,
    a: Seq<Seq<F>>,
    b: Seq<F>,
    m: int,
    d: Seq<real>,
    s: real,
    t: real,
    ds: Seq<F>,
    dt: Seq<F>,
    x: Seq<F>,
    z: Seq<F>,
)
    requires
        exact(val),
        poses(val, p, a, b, m),
        graded(val, p),
        (0 as real) < s <= t,
        ds.len() == a.len(),
        dt.len() == a.len(),
        forall|c: int| 0 <= c < a.len() ==> val(#[trigger] ds[c]) == s * d[c],
        forall|c: int| 0 <= c < a.len() ==> val(#[trigger] dt[c]) == t * d[c],
        scattered(p.permutation, solution_with_diagonal(p, ds), x),
        scattered(p.permutation, solution_with_diagonal(p, dt), z),
    ensures
        diagonal_length(d, values(val, z), a.len() as int) <= diagonal_length(
            d,
            values(val, x),
            a.len() as int,
        ),
        residual_length(matrix_values(val, a), values(val, b), m, values(val, x))
            <= residual_length(matrix_values(val, a), values(val, b), m, values(val, z)),
{
    law_solve_with_diagonal(val, p, a, b, m, ds, x);
    law_solve_with_diagonal(val, p, a, b, m, dt, z);
    law_normal_equations_damped(
        matrix_values(val, a),
        d,
        values(val, b),
        m,
        s,
        t,
        values(val, ds),
        values(val, dt),
        values(val, x),
        values(val, z),
    );
}

/// `u^2 * x` does not change with the sign of `u`.
proof fn lemma_sign(u: real, v: real, x: real)
    requires
        v == u || v == -u,
    ensures
        u * u * x == v * v * x,
{
    assert(u * u == v * v) by (nonlinear_arith)
        requires
            v == u || v == -u,
    ;
}

/// The normal equations do not change with the signs of the entries of `D`.
proof fn lemma_signs(
    columns: Seq<Seq<real>>,
    d: Seq<real>,
    e: Seq<real>,
    b: Seq<real>,
    m: int,
    z: Seq<real>,
)
    requires
        normal_equations(columns, e, b, m, z),
        forall|c: int| 0 <= c < columns.len() ==> #[trigger] e[c] == d[c] || e[c] == -d[c],
    ensures
        normal_equations(columns, d, b, m, z),
{
    assert forall|c: int| 0 <= c < columns.len() implies inner(
        #[trigger] columns[c],
        product(columns, z, m),
        0,
        m,
    ) + d[c] * d[c] * z[c] == inner(columns[c], b, 0, m) by {
        assert(e[c] == d[c] || e[c] == -d[c]);
        lemma_sign(d[c], e[c], z[c]);
    }
}

/// Whether `x` solves the normal equations.
#[verifier::opaque]
spec fn solves(
    columns: Seq<Seq<real>>,
    d: Seq<real>,
    b: Seq<real>,
    m: int,
    x: Seq<real>,
) -> bool {
    normal_equations(columns, d, b, m, x)
}

/// The result of `solve_with_diagonal` solves the normal equations.
proof fn lemma_solves<F: Arithmetic>(
    val: spec_fn(F) -> real,
    p: LeastSquares<F>,
    a: Seq<Seq<F>>,
    b: Seq<F>,
    m: int,
    diag: Seq<F>,
    x: Seq<F>,
)
    requires
        exact(val),
        poses(val, p, a, b, m),
        graded(val, p),
        diag.len() == a.len(),
        scattered(p.permutation, solution_with_diagonal(p, diag), x),
    ensures
        solves(matrix_values(val, a), values(val, diag), values(val, b), m, values(val, x)),
{
    reveal(solves);
    law_solve_with_diagonal(val, p, a, b, m, diag, x);
}

/// Solutions of the normal equations for diagonal matrices that differ in their signs only are equal,
/// where the columns of `A` on top of `D` are linearly independent.
proof fn lemma_signs_unique(
    columns: Seq<Seq<real>>,
    d: Seq<real>,
    e: Seq<real>,
    b: Seq<real>,
    m: int,
    x: Seq<real>,
    z: Seq<real>,
)
    requires
        0 <= m,
        x.len() == columns.len(),
        z.len() == columns.len(),
        independent_with(columns, d, m),
        solves(columns, d, b, m, x),
        solves(columns, e, b, m, z),
        forall|c: int| 0 <= c < columns.len() ==> #[trigger] e[c] == d[c] || e[c] == -d[c],
    ensures
        x == z,
{
    reveal(solves);
    lemma_signs(columns, d, e, b, m, z);
    law_solution_is_unique(columns, d, b, m, x, z);
}

/// The signs of the entries of `D` do not matter to `solve_with_diagonal`, where the columns of `A`
/// on top of `D` are linearly independent. They are for a `D` without a zero.
pub proof fn law_signs_do_not_matter<F: Arithmetic>(
    val: spec_fn(F) -> real,
    p: LeastSquares<F>,
    a: Seq<Seq<F>>,
    b: Seq<F>,
    m: int,
    diag: Seq<F>,
    other: Seq<F>,
    x: Seq<F>,
    z: Seq<F>,
)
    requires
        exact(val),
        poses(val, p, a, b, m),
        graded(val, p),
        diag.len() == a.len(),
        other.len() == a.len(),
        forall|c: int|
            0 <= c < a.len() ==> val(#[trigger] other[c]) == val(diag[c]) || val(other[c]) == -val(
                diag[c],
            ),
        independent_with(matrix_values(val, a), values(val, diag), m),
        scattered(p.permutation, solution_with_diagonal(p, diag), x),
        scattered(p.permutation, solution_with_diagonal(p, other), z),
    ensures
        values(val, z) == values(val, x),
{
    let n = a.len() as int;
    let columns = matrix_values(val, a);
    let (d, e) = (values(val, diag), values(val, other));
    let zs = values(val, z);
    lemma_solves(val, p, a, b, m, diag, x);
    lemma_solves(val, p, a, b, m, other, z);
    assert forall|c: int| 0 <= c < n implies #[trigger] e[c] == d[c] || e[c] == -d[c] by {
        assert(val(other[c]) == val(diag[c]) || val(other[c]) == -val(diag[c]));
    }
    lemma_signs_unique(columns, d, e, values(val, b), m, values(val, x), zs);
}

} // verus!
