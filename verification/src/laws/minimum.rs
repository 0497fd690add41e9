//! Solutions of the normal equations minimize the sum of squares.
use vstd::prelude::*;
use crate::laws::least_squares::lemma_product_inner;
use crate::laws::rank::{independent_with, is_zero_vector};
use crate::laws::sums::{
    lemma_sum_nonnegative, lemma_sum_of_sums, lemma_sum_of_zeros, lemma_sum_scaled, sum,
};
use crate::laws::vectors::{
    inner, lemma_inner_linear, lemma_inner_nonnegative, lemma_inner_symmetric, product,
};

verus! {

/// The vector `A * x - b` for the matrix with the given columns and `m` rows.
pub open spec fn residual(
    columns: Seq<Seq<real>>,
    b: Seq<real>,
    m: int,
    x: Seq<real>,
) -> Seq<real> {
    Seq::new(m as nat, |i: int| product(columns, x, m)[i] - b[i])
}

/// The value of `|A * x - b|^2`.
pub open spec fn residual_length(
    columns: Seq<Seq<real>>,
    b: Seq<real>,
    m: int,
    x: Seq<real>,
) -> real {
    inner(residual(columns, b, m, x), residual(columns, b, m, x), 0, m)
}

/// The value of `|D * x|^2` for the diagonal matrix with `n` entries.
pub open spec fn diagonal_length(d: Seq<real>, x: Seq<real>, n: int) -> real {
    sum(|c: int| (d[c] * x[c]) * (d[c] * x[c]), 0, n)
}

/// The value of `|A * x - b|^2 + |D * x|^2`.
pub open spec fn objective(
    columns: Seq<Seq<real>>,
    d: Seq<real>,
    b: Seq<real>,
    m: int,
    x: Seq<real>,
) -> real {
    residual_length(columns, b, m, x) + diagonal_length(d, x, columns.len() as int)
}

/// Whether `(A^T * A + D * D) * x = A^T * b`.
pub open spec fn normal_equations(
    columns: Seq<Seq<real>>,
    d: Seq<real>,
    b: Seq<real>,
    m: int,
    x: Seq<real>,
) -> bool {
    forall|c: int|
        0 <= c < columns.len() ==> inner(#[trigger] columns[c], product(columns, x, m), 0, m)
            + d[c] * d[c] * x[c] == inner(columns[c], b, 0, m)
}

/// The product with a matrix is linear: `A * z = A * x + A * h` for `z = x + h`.
proof fn lemma_product_sum(
    columns: Seq<Seq<real>>,
    x: Seq<real>,
    h: Seq<real>,
    z: Seq<real>,
    m: int,
    i: int,
)
    requires
        0 <= i < m,
        forall|c: int| 0 <= c < columns.len() ==> #[trigger] z[c] == x[c] + h[c],
    ensures
        product(columns, z, m)[i] == product(columns, x, m)[i] + product(columns, h, m)[i],
{
    let n = columns.len() as int;
    let f = |j: int| columns[j][i] * x[j];
    let g = |j: int| columns[j][i] * h[j];
    let e = |j: int| columns[j][i] * z[j];
    assert forall|j: int| 0 <= j < n implies #[trigger] e(j) == f(j) + g(j) by {
        let (a, u, v, w) = (columns[j][i], x[j], h[j], z[j]);
        assert(w == u + v);
        assert(a * w == a * u + a * v) by (nonlinear_arith)
            requires
                w == u + v,
        ;
    }
    lemma_sum_of_sums(f, g, e, 0, n);
}

/// Away from a solution `x` of the normal equations the sum of squares grows by
/// `|A * h|^2 + |D * h|^2`, where `h = z - x`.
pub proof fn law_objective_splits(
    columns: Seq<Seq<real>>,
    d: Seq<real>,
    b: Seq<real>,
    m: int,
    x: Seq<real>,
    z: Seq<real>,
)
    requires
        0 <= m,
        normal_equations(columns, d, b, m, x),
    ensures
        ({
            let n = columns.len() as int;
            let h = Seq::new(n as nat, |c: int| z[c] - x[c]);
            let ah = product(columns, h, m);
            objective(columns, d, b, m, z) == objective(columns, d, b, m, x) + inner(ah, ah, 0, m)
                + diagonal_length(d, h, n)
        }),
{
    let n = columns.len() as int;
    let h = Seq::new(n as nat, |c: int| z[c] - x[c]);
    let r = residual(columns, b, m, x);
    let s = residual(columns, b, m, z);
    let ah = product(columns, h, m);
    let one = 1 as real;
    // |A * z - b|^2 = |A * x - b|^2 + 2 * (A * h) . (A * x - b) + |A * h|^2
    assert forall|i: int| 0 <= i < m implies #[trigger] s[i] == r[i] + one * ah[i] by {
        lemma_product_sum(columns, x, h, z, m, i);
    }
    lemma_inner_linear(s, r, one, ah, s, 0, m);
    lemma_inner_symmetric(r, s, 0, m);
    lemma_inner_symmetric(ah, s, 0, m);
    lemma_inner_linear(s, r, one, ah, r, 0, m);
    lemma_inner_linear(s, r, one, ah, ah, 0, m);
    lemma_inner_symmetric(r, ah, 0, m);
    lemma_inner_nonnegative(ah, 0, m);
    let cross = inner(ah, r, 0, m);
    assert(inner(s, s, 0, m) == inner(r, r, 0, m) + cross + cross + inner(ah, ah, 0, m));
    // (A * h) . (A * x - b) = -(the sum of h[c] * d[c]^2 * x[c])
    let mixed = |c: int| (d[c] * x[c]) * (d[c] * h[c]);
    assert(cross == -sum(mixed, 0, n)) by {
        lemma_product_inner(columns, h, r, m);
        let f = |c: int| h[c] * inner(columns[c], r, 0, m);
        assert forall|c: int| 0 <= c < n implies #[trigger] f(c) == (-one) * mixed(c) by {
            let ax = product(columns, x, m);
            lemma_inner_symmetric(columns[c], r, 0, m);
            lemma_inner_symmetric(columns[c], ax, 0, m);
            lemma_inner_symmetric(columns[c], b, 0, m);
            assert forall|i: int| 0 <= i < m implies #[trigger] r[i] == ax[i] + (-one) * b[i] by {}
            lemma_inner_linear(r, ax, -one, b, columns[c], 0, m);
            let (u, v, w, e) = (d[c], x[c], h[c], inner(columns[c], r, 0, m));
            assert(e == -(u * u * v));
            assert(w * e == (-one) * ((u * v) * (u * w))) by (nonlinear_arith)
                requires
                    e == -(u * u * v),
                    one == 1 as real,
            {
                assert((u * v) * (u * w) == (u * u * v) * w);
            }
        }
        lemma_sum_scaled(-one, mixed, f, 0, n);
        let t = sum(mixed, 0, n);
        assert((-one) * t == -t) by (nonlinear_arith)
            requires
                one == 1 as real,
        ;
    }
    // |D * z|^2 = |D * x|^2 + 2 * (the sum of h[c] * d[c]^2 * x[c]) + |D * h|^2
    let dx = |c: int| (d[c] * x[c]) * (d[c] * x[c]);
    let dz = |c: int| (d[c] * z[c]) * (d[c] * z[c]);
    let dh = |c: int| (d[c] * h[c]) * (d[c] * h[c]);
    let first = |c: int| dx(c) + mixed(c);
    let second = |c: int| mixed(c) + dh(c);
    lemma_sum_of_sums(dx, mixed, first, 0, n);
    lemma_sum_of_sums(mixed, dh, second, 0, n);
    assert forall|c: int| 0 <= c < n implies #[trigger] dz(c) == first(c) + second(c) by {
        let (p, q, t) = (d[c] * x[c], d[c] * h[c], d[c] * z[c]);
        let (u, v, w, y) = (d[c], x[c], h[c], z[c]);
        assert(u * y == u * v + u * w) by (nonlinear_arith)
            requires
                y == v + w,
        ;
        assert(t * t == p * p + p * q + p * q + q * q) by (nonlinear_arith)
            requires
                t == p + q,
        ;
    }
    lemma_sum_of_sums(first, second, dz, 0, n);
}

/// `|D * x|^2` is not negative, and it is zero only where `D * x` is.
pub proof fn lemma_diagonal_length(d: Seq<real>, x: Seq<real>, n: int)
    ensures
        diagonal_length(d, x, n) >= 0 as real,
        diagonal_length(d, x, n) == 0 as real ==> forall|c: int|
            0 <= c < n ==> #[trigger] d[c] * x[c] == 0 as real,
{
    let f = |c: int| (d[c] * x[c]) * (d[c] * x[c]);
    assert forall|c: int| 0 <= c < n implies #[trigger] f(c) >= 0 as real by {
        let q = d[c] * x[c];
        assert(q * q >= 0 as real) by (nonlinear_arith);
    }
    lemma_sum_nonnegative(f, 0, n);
    if diagonal_length(d, x, n) == 0 as real {
        assert forall|c: int| 0 <= c < n implies #[trigger] d[c] * x[c] == 0 as real by {
            let q = d[c] * x[c];
            assert(f(c) <= 0 as real);
            assert(q == 0 as real) by (nonlinear_arith)
                requires
                    q * q <= 0 as real,
            ;
        }
    }
}

/// `|D * h|^2 = 0` where `D * h = 0`.
pub proof fn lemma_kernel_diagonal(d: Seq<real>, h: Seq<real>, n: int)
    requires
        forall|c: int| 0 <= c < n ==> #[trigger] d[c] * h[c] == 0 as real,
    ensures
        diagonal_length(d, h, n) == 0 as real,
{
    let f = |c: int| (d[c] * h[c]) * (d[c] * h[c]);
    assert forall|c: int| 0 <= c < n implies #[trigger] f(c) == 0 as real by {
        assert(d[c] * h[c] == 0 as real);
        let q = d[c] * h[c];
        assert(q * q == 0 as real) by (nonlinear_arith)
            requires
                q == 0 as real,
        ;
    }
    lemma_sum_of_zeros(f, 0, n);
}

/// A solution of the normal equations minimizes `|A * x - b|^2 + |D * x|^2`.
pub proof fn law_normal_equations_minimize(
    columns: Seq<Seq<real>>,
    d: Seq<real>,
    b: Seq<real>,
    m: int,
    x: Seq<real>,
    z: Seq<real>,
)
    requires
        0 <= m,
        normal_equations(columns, d, b, m, x),
    ensures
        objective(columns, d, b, m, x) <= objective(columns, d, b, m, z),
{
    let n = columns.len() as int;
    let h = Seq::new(n as nat, |c: int| z[c] - x[c]);
    law_objective_splits(columns, d, b, m, x, z);
    lemma_inner_nonnegative(product(columns, h, m), 0, m);
    lemma_diagonal_length(d, h, n);
}

/// A solution of `A^T * A * x = A^T * b` minimizes `|A * x - b|^2`.
pub proof fn law_normal_equations_minimize_residual(
    columns: Seq<Seq<real>>,
    zeros: Seq<real>,
    b: Seq<real>,
    m: int,
    x: Seq<real>,
    z: Seq<real>,
)
    requires
        0 <= m,
        forall|c: int| 0 <= c < columns.len() ==> #[trigger] zeros[c] == 0 as real,
        normal_equations(columns, zeros, b, m, x),
    ensures
        residual_length(columns, b, m, x) <= residual_length(columns, b, m, z),
{
    let n = columns.len() as int;
    law_normal_equations_minimize(columns, zeros, b, m, x, z);
    assert forall|y: Seq<real>, c: int| 0 <= c < n implies #[trigger] zeros[c] * #[trigger] y[c]
        == 0 as real by {
        let (e, u) = (zeros[c], y[c]);
        assert(e * u == 0 as real) by (nonlinear_arith)
            requires
                e == 0 as real,
        ;
    }
    lemma_kernel_diagonal(zeros, x, n);
    lemma_kernel_diagonal(zeros, z, n);
}

/// Two solutions of the normal equations differ by a vector `h` with `A * h = 0` and `D * h = 0`.
pub proof fn law_solutions_differ_by_kernel(
    columns: Seq<Seq<real>>,
    d: Seq<real>,
    b: Seq<real>,
    m: int,
    x: Seq<real>,
    z: Seq<real>,
)
    requires
        0 <= m,
        normal_equations(columns, d, b, m, x),
        normal_equations(columns, d, b, m, z),
    ensures
        ({
            let h = Seq::new(columns.len(), |c: int| z[c] - x[c]);
            &&& is_zero_vector(product(columns, h, m))
            &&& forall|c: int| 0 <= c < columns.len() ==> #[trigger] d[c] * h[c] == 0 as real
        }),
{
    let n = columns.len() as int;
    let h = Seq::new(n as nat, |c: int| z[c] - x[c]);
    law_objective_splits(columns, d, b, m, x, z);
    law_normal_equations_minimize(columns, d, b, m, z, x);
    lemma_inner_nonnegative(product(columns, h, m), 0, m);
    lemma_diagonal_length(d, h, n);
}

/// Where the columns of `A` on top of `D` are linearly independent, the normal equations have at
/// most one solution.
pub proof fn law_solution_is_unique(
    columns: Seq<Seq<real>>,
    d: Seq<real>,
    b: Seq<real>,
    m: int,
    x: Seq<real>,
    z: Seq<real>,
)
    requires
        0 <= m,
        independent_with(columns, d, m),
        x.len() == columns.len(),
        z.len() == columns.len(),
        normal_equations(columns, d, b, m, x),
        normal_equations(columns, d, b, m, z),
    ensures
        x == z,
{
    let h = Seq::new(columns.len(), |c: int| z[c] - x[c]);
    law_solutions_differ_by_kernel(columns, d, b, m, x, z);
    assert(is_zero_vector(product(columns, h, m)));
    assert forall|c: int| 0 <= c < x.len() implies x[c] == z[c] by {
        assert(h[c] == 0 as real);
    }
    assert(x =~= z);
}

} // verus!
