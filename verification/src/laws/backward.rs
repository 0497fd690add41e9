//! The errors of products and of solutions where the arithmetic is rounded.
//!
//! The bounds are for each row on its own, and are small against the magnitudes of the terms of
//! the row.
use vstd::prelude::*;
use crate::laws::rounding::{
    approx, dot_steps, law_dot_rounded, lemma_absolute_product, lemma_approx_round,
    lemma_approx_same, lemma_approx_sum, lemma_approx_weaken,
};
use crate::laws::solutions::cholesky_entry;
use crate::laws::sums::{
    lemma_sum_congruent, lemma_sum_first, lemma_sum_of_zeros, lemma_sum_split, sum,
};
use crate::laws::triangular::{
    lemma_lower_solution_len, lemma_transposed_lower_solution_keeps,
    lemma_transposed_upper_solution_keeps, lemma_upper_solution_keeps,
};
use crate::scalar::{absolute, near, rounded, Arithmetic};
use crate::triangular::{
    lower_solution, transposed_lower_solution, transposed_upper_solution, upper_solution,
};
use crate::vector::{axpy_spec, dot_spec};

verus! {

/// The terms of row `i` of a product: entry `k` of the row times entry `k` of `x`.
pub open spec fn terms<F>(
    val: spec_fn(F) -> real,
    row: spec_fn(int) -> real,
    x: Seq<F>,
) -> spec_fn(int) -> real {
    |k: int| row(k) * val(x[k])
}

/// The magnitudes of the terms of a row of a product.
pub open spec fn magnitudes<F>(
    val: spec_fn(F) -> real,
    row: spec_fn(int) -> real,
    x: Seq<F>,
) -> spec_fn(int) -> real {
    |k: int| absolute(row(k)) * absolute(val(x[k]))
}

/// Whether `c` is the sum of the terms `lo`, ..., `hi - 1` of a row of a product, up to the error of `steps`
/// operations in each term: `|c - row . x| <= gamma * (|row| . |x|)`.
pub open spec fn is_row<F>(
    val: spec_fn(F) -> real,
    u: real,
    steps: nat,
    c: real,
    row: spec_fn(int) -> real,
    x: Seq<F>,
    lo: int,
    hi: int,
) -> bool {
    approx(u, steps, c, sum(terms(val, row, x), lo, hi), sum(magnitudes(val, row, x), lo, hi))
}

/// Row `i` of the matrix with the given columns.
pub open spec fn row_of<F>(
    val: spec_fn(F) -> real,
    columns: Seq<Seq<F>>,
    i: int,
) -> spec_fn(int) -> real {
    |k: int| val(columns[k][i])
}

/// Column `i` of the matrix with the given columns.
pub open spec fn column_of<F>(
    val: spec_fn(F) -> real,
    columns: Seq<Seq<F>>,
    i: int,
) -> spec_fn(int) -> real {
    |k: int| val(columns[i][k])
}

/// A row of a product does not change with the entries that are not in it.
pub proof fn lemma_row_congruent<F>(
    val: spec_fn(F) -> real,
    u: real,
    steps: nat,
    c: real,
    row: spec_fn(int) -> real,
    x: Seq<F>,
    other: spec_fn(int) -> real,
    y: Seq<F>,
    lo: int,
    hi: int,
)
    requires
        is_row(val, u, steps, c, row, x, lo, hi),
        forall|k: int| lo <= k < hi ==> #[trigger] row(k) == other(k),
        forall|k: int| lo <= k < hi ==> val(#[trigger] x[k]) == val(y[k]),
    ensures
        is_row(val, u, steps, c, other, y, lo, hi),
{
    let (f, g) = (terms(val, row, x), terms(val, other, y));
    assert forall|k: int| lo <= k < hi implies #[trigger] f(k) == g(k) by {
        assert(row(k) == other(k));
        assert(val(x[k]) == val(y[k]));
    }
    lemma_sum_congruent(f, g, lo, hi);
    let (f, g) = (magnitudes(val, row, x), magnitudes(val, other, y));
    assert forall|k: int| lo <= k < hi implies #[trigger] f(k) == g(k) by {
        assert(row(k) == other(k));
        assert(val(x[k]) == val(y[k]));
    }
    lemma_sum_congruent(f, g, lo, hi);
}

/// A row of a product with more operations.
pub proof fn lemma_row_weaken<F>(
    val: spec_fn(F) -> real,
    u: real,
    steps: nat,
    more: nat,
    c: real,
    row: spec_fn(int) -> real,
    x: Seq<F>,
    lo: int,
    hi: int,
)
    requires
        (0 as real) <= u < 1 as real,
        steps <= more,
        is_row(val, u, steps, c, row, x, lo, hi),
    ensures
        is_row(val, u, more, c, row, x, lo, hi),
{
    let s = sum(magnitudes(val, row, x), lo, hi);
    lemma_approx_weaken(u, steps, more, c, sum(terms(val, row, x), lo, hi), s, s);
}

/// A zero adds nothing to a row.
proof fn lemma_row_zero<F>(
    val: spec_fn(F) -> real,
    row: spec_fn(int) -> real,
    x: Seq<F>,
    k: int,
)
    requires
        row(k) == 0 as real || val(x[k]) == 0 as real,
    ensures
        terms(val, row, x)(k) == 0 as real,
        magnitudes(val, row, x)(k) == 0 as real,
{
    let (a, b) = (row(k), val(x[k]));
    assert(a * b == 0 as real) by (nonlinear_arith)
        requires
            a == 0 as real || b == 0 as real,
    ;
    lemma_absolute_product(a, b);
}

/// A row goes on with zeros.
pub proof fn lemma_row_extend<F>(
    val: spec_fn(F) -> real,
    u: real,
    steps: nat,
    c: real,
    row: spec_fn(int) -> real,
    x: Seq<F>,
    lo: int,
    from: int,
    to: int,
    hi: int,
)
    requires
        is_row(val, u, steps, c, row, x, from, to),
        lo <= from <= to <= hi,
        forall|k: int|
            lo <= k < from || to <= k < hi ==> #[trigger] row(k) == 0 as real || val(x[k])
                == 0 as real,
    ensures
        is_row(val, u, steps, c, row, x, lo, hi),
{
    let (f, g) = (terms(val, row, x), magnitudes(val, row, x));
    assert forall|k: int| lo <= k < from || to <= k < hi implies #[trigger] f(k) == 0 as real by {
        assert(row(k) == 0 as real || val(x[k]) == 0 as real);
        lemma_row_zero(val, row, x, k);
    }
    assert forall|k: int| lo <= k < from || to <= k < hi implies #[trigger] g(k) == 0 as real by {
        assert(row(k) == 0 as real || val(x[k]) == 0 as real);
        lemma_row_zero(val, row, x, k);
    }
    lemma_sum_split(f, lo, from, hi);
    lemma_sum_split(f, from, to, hi);
    lemma_sum_of_zeros(f, lo, from);
    lemma_sum_of_zeros(f, to, hi);
    lemma_sum_split(g, lo, from, hi);
    lemma_sum_split(g, from, to, hi);
    lemma_sum_of_zeros(g, lo, from);
    lemma_sum_of_zeros(g, to, hi);
}

/// The opposites of numbers that are near are near.
proof fn lemma_near_opposite(u: real, c: real, e: real)
    requires
        near(u, c, e),
    ensures
        near(u, -c, -e),
{
    reveal(near);
}

/// `d * p` is near `q` where `p` is near `q / d`.
pub proof fn lemma_near_quotient(u: real, p: real, q: real, d: real)
    requires
        d != 0 as real,
        near(u, p, q / d),
    ensures
        near(u, d * p, q),
{
    reveal(near);
    let e = q / d;
    assert(d * e == q) by (nonlinear_arith)
        requires
            e == q / d,
            d != 0 as real,
    ;
    lemma_absolute_product(d, p - e);
    lemma_absolute_product(d, e);
    assert(d * (p - e) == d * p - d * e) by (nonlinear_arith);
    let (a, b, c) = (absolute(d), absolute(p - e), absolute(e));
    assert(a * b <= u * (a * c)) by (nonlinear_arith)
        requires
            b <= u * c,
            a >= 0 as real,
    ;
}

/// The error of a quotient, seen from the result: `b` is `l * y`, for `y = b / l`.
proof fn lemma_divided<F: Arithmetic>(val: spec_fn(F) -> real, u: real, b: F, l: F)
    requires
        rounded(val, u),
        val(l) != 0 as real,
    ensures
        ({
            let y = val(b.over(l));
            approx(u, 1, val(b), val(l) * y, absolute(val(l)) * absolute(y))
        }),
{
    let y = val(b.over(l));
    let p = val(l) * y;
    lemma_near_quotient(u, y, val(b), val(l));
    lemma_absolute_product(val(l), y);
    lemma_approx_same(u, 0, p);
    lemma_approx_round(u, 0, val(b), p, p, absolute(p));
}

/// The error of a step of a substitution, seen from the result: `b` is `l * y + s`, for
/// `y = (b - s) / l`.
proof fn lemma_substituted<F: Arithmetic>(
    val: spec_fn(F) -> real,
    u: real,
    k: nat,
    b: F,
    s: F,
    l: F,
    e: real,
    t: real,
)
    requires
        rounded(val, u),
        val(l) != 0 as real,
        k >= 2,
        approx(u, k, val(s), e, t),
    ensures
        ({
            let y = val(b.minus(s).over(l));
            approx(u, k, val(b), val(l) * y + e, absolute(val(l)) * absolute(y) + t)
        }),
{
    let d = b.minus(s);
    let y = val(d.over(l));
    let (p, q) = (val(l) * y, absolute(val(l)) * absolute(y));
    lemma_divided(val, u, d, l);
    lemma_approx_round(u, 1, val(b) - val(s), val(d), p, q);
    lemma_approx_weaken(u, 2, k, val(b) - val(s), p, q, q);
    lemma_approx_sum(u, k, val(b) - val(s), p, q, val(s), e, t);
}

/// The error of the elimination of an unknown, seen from the result: `b` is `rest + x * e`, for
/// `rest = -x * e + b`.
proof fn lemma_eliminated_unknown<F: Arithmetic>(
    val: spec_fn(F) -> real,
    u: real,
    k: nat,
    b: F,
    x: F,
    e: F,
    r: real,
    s: real,
)
    requires
        rounded(val, u),
        approx(u, k, val(x.negated().times(e).plus(b)), r, s),
    ensures
        approx(
            u,
            k + 1,
            val(b),
            r + val(e) * val(x),
            s + absolute(val(e)) * absolute(val(x)),
        ),
{
    let t = x.negated().times(e);
    let rest = t.plus(b);
    let (p, q) = (val(e) * val(x), absolute(val(e)) * absolute(val(x)));
    lemma_absolute_product(val(e), val(x));
    lemma_approx_round(u, k, val(t) + val(b), val(rest), r, s);
    let v = val(x.negated()) * val(e);
    assert(v == -p) by {
        let (a, c) = (val(x), val(e));
        assert((-a) * c == -(c * a)) by (nonlinear_arith);
    }
    lemma_near_opposite(u, val(t), v);
    lemma_approx_same(u, 0, p);
    lemma_approx_round(u, 0, -val(t), p, p, q);
    lemma_approx_weaken(u, 1, k + 1, -val(t), p, q, q);
    lemma_approx_sum(u, k + 1, val(t) + val(b), r, s, -val(t), p, q);
}

/// The substitution for `R * x = b` gives an `x` with `|b - R * x| <= gamma * |R| * |x|` in the rows without
/// a zero on the diagonal. In the others the entry of `x` is zero.
pub proof fn law_upper_solution_rounded<F: Arithmetic>(
    val: spec_fn(F) -> real,
    u: real,
    columns: Seq<Seq<F>>,
    b: Seq<F>,
    n: int,
    i: int,
)
    requires
        rounded(val, u),
        0 <= i < n <= columns.len(),
        n <= b.len(),
    ensures
        ({
            let x = upper_solution(columns, b, n);
            if val(columns[i][i]) == 0 as real {
                val(x[i]) == 0 as real
            } else {
                is_row(val, u, (n - i) as nat, val(b[i]), row_of(val, columns, i), x, i, n)
            }
        }),
    decreases n,
{
    let x = upper_solution(columns, b, n);
    let row = row_of(val, columns, i);
    let (f, g) = (terms(val, row, x), magnitudes(val, row, x));
    let d = columns[n - 1][n - 1];
    let c = if d.vanishes() {
        F::zero_spec()
    } else {
        b[n - 1].over(d)
    };
    let rest = if d.vanishes() {
        b.update(n - 1, c)
    } else {
        axpy_spec(b.update(n - 1, c), c.negated(), columns[n - 1], 0, n - 1)
    };
    lemma_upper_solution_keeps(columns, rest, n - 1);
    assert(x == upper_solution(columns, rest, n - 1));
    assert(x[n - 1] == c);
    if i == n - 1 {
        if !d.vanishes() {
            lemma_divided(val, u, b[i], d);
            assert(sum(f, i, n) == sum(f, i, i) + f(i));
            assert(sum(g, i, n) == sum(g, i, i) + g(i));
        }
    } else {
        law_upper_solution_rounded(val, u, columns, rest, n - 1, i);
        if val(columns[i][i]) != 0 as real {
            assert(sum(f, i, n) == sum(f, i, n - 1) + f(n - 1));
            assert(sum(g, i, n) == sum(g, i, n - 1) + g(n - 1));
            if d.vanishes() {
                lemma_row_zero(val, row, x, n - 1);
                lemma_row_weaken(
                    val,
                    u,
                    (n - 1 - i) as nat,
                    (n - i) as nat,
                    val(b[i]),
                    row,
                    x,
                    i,
                    n - 1,
                );
            } else {
                assert(rest[i] == c.negated().times(columns[n - 1][i]).plus(b[i]));
                lemma_eliminated_unknown(
                    val,
                    u,
                    (n - 1 - i) as nat,
                    b[i],
                    c,
                    columns[n - 1][i],
                    sum(f, i, n - 1),
                    sum(g, i, n - 1),
                );
            }
        }
    }
}

/// The substitution for `R^T * x = b` gives an `x` with `|b - R^T * x| <= gamma * |R^T| * |x|`, where no
/// entry on the diagonal is zero. It may start in row `i`, which is the case `i = 0`.
pub proof fn law_transposed_upper_solution_rounded<F: Arithmetic>(
    val: spec_fn(F) -> real,
    u: real,
    columns: Seq<Seq<F>>,
    b: Seq<F>,
    i: int,
    n: int,
    q: int,
)
    requires
        rounded(val, u),
        0 <= i <= q < n <= columns.len(),
        n <= b.len(),
        forall|k: int| 0 <= k < n ==> val((#[trigger] columns[k])[k]) != 0 as real,
    ensures
        is_row(
            val,
            u,
            dot_steps(n),
            val(b[q]),
            column_of(val, columns, q),
            transposed_upper_solution(columns, b, i, n),
            0,
            q + 1,
        ),
    decreases n - i,
{
    let x = transposed_upper_solution(columns, b, i, n);
    assert(val(columns[i][i]) != 0 as real);
    let s = dot_spec(columns[i], b, 0, i);
    let c = b[i].minus(s).over(columns[i][i]);
    let rest = b.update(i, c);
    assert(x == transposed_upper_solution(columns, rest, i + 1, n));
    if q == i {
        lemma_transposed_upper_solution_keeps(columns, rest, i + 1, n);
        let row = column_of(val, columns, i);
        law_dot_rounded(val, u, columns[i], b, 0, i);
        let (f, g) = (terms(val, row, b), magnitudes(val, row, b));
        lemma_sum_congruent(f, |j: int| val(columns[i][j]) * val(b[j]), 0, i);
        lemma_sum_congruent(
            g,
            |j: int| absolute(val(columns[i][j])) * absolute(val(b[j])),
            0,
            i,
        );
        lemma_row_weaken(val, u, dot_steps(i), dot_steps(n), val(s), row, b, 0, i);
        assert forall|k: int| 0 <= k < i implies val(#[trigger] b[k]) == val(x[k]) by {
            assert(x[k] == rest[k]);
        }
        lemma_row_congruent(val, u, dot_steps(n), val(s), row, b, row, x, 0, i);
        let (f, g) = (terms(val, row, x), magnitudes(val, row, x));
        lemma_substituted(
            val,
            u,
            dot_steps(n),
            b[i],
            s,
            columns[i][i],
            sum(f, 0, i),
            sum(g, 0, i),
        );
        assert(x[i] == rest[i]);
        assert(sum(f, 0, i + 1) == sum(f, 0, i) + f(i));
        assert(sum(g, 0, i + 1) == sum(g, 0, i) + g(i));
    } else {
        law_transposed_upper_solution_rounded(val, u, columns, rest, i + 1, n, q);
    }
}

/// The substitution for `L^T * x = b` gives an `x` with `|b - L^T * x| <= gamma * |L^T| * |x|` in the rows
/// without a zero on the diagonal. In the others the entry of `x` is zero. It may end in row `j`, which is
/// the case `j = 0`.
pub proof fn law_transposed_lower_solution_rounded<F: Arithmetic>(
    val: spec_fn(F) -> real,
    u: real,
    columns: Seq<Seq<F>>,
    diagonal: Seq<F>,
    b: Seq<F>,
    j: int,
    n: int,
    i: int,
)
    requires
        rounded(val, u),
        0 <= j <= i < n <= columns.len(),
        n <= b.len(),
    ensures
        ({
            let x = transposed_lower_solution(columns, diagonal, b, j, n);
            if val(diagonal[i]) == 0 as real {
                val(x[i]) == 0 as real
            } else {
                is_row(
                    val,
                    u,
                    dot_steps(n),
                    val(b[i]),
                    |k: int| cholesky_entry(val, columns, diagonal, k, i),
                    x,
                    i,
                    n,
                )
            }
        }),
    decreases n - j,
{
    let x = transposed_lower_solution(columns, diagonal, b, j, n);
    let y = transposed_lower_solution(columns, diagonal, b, j + 1, n);
    lemma_transposed_lower_solution_keeps(columns, diagonal, b, j + 1, n);
    let row = |k: int| cholesky_entry(val, columns, diagonal, k, i);
    let s = dot_spec(columns[j], y, j + 1, n);
    let c = if diagonal[j].vanishes() {
        F::zero_spec()
    } else {
        y[j].minus(s).over(diagonal[j])
    };
    assert(x == y.update(j, c));
    if i != j {
        law_transposed_lower_solution_rounded(val, u, columns, diagonal, b, j + 1, n, i);
        if val(diagonal[i]) != 0 as real {
            lemma_row_congruent(val, u, dot_steps(n), val(b[i]), row, y, row, x, i, n);
        }
    } else if val(diagonal[j]) != 0 as real {
        let column = column_of(val, columns, j);
        law_dot_rounded(val, u, columns[j], y, j + 1, n);
        lemma_sum_congruent(
            terms(val, column, y),
            |k: int| val(columns[j][k]) * val(y[k]),
            j + 1,
            n,
        );
        lemma_sum_congruent(
            magnitudes(val, column, y),
            |k: int| absolute(val(columns[j][k])) * absolute(val(y[k])),
            j + 1,
            n,
        );
        let steps = dot_steps(n - (j + 1));
        lemma_row_weaken(val, u, steps, dot_steps(n), val(s), column, y, j + 1, n);
        lemma_row_congruent(val, u, dot_steps(n), val(s), column, y, row, x, j + 1, n);
        let (f, g) = (terms(val, row, x), magnitudes(val, row, x));
        lemma_substituted(
            val,
            u,
            dot_steps(n),
            b[j],
            s,
            diagonal[j],
            sum(f, j + 1, n),
            sum(g, j + 1, n),
        );
        assert(y[j] == b[j]);
        lemma_sum_first(f, j, n);
        lemma_sum_first(g, j, n);
    }
}

/// What is left of row `i` of `b` after `j` steps of the substitution for `L * x = b`.
proof fn lemma_lower_solution_rounded<F: Arithmetic>(
    val: spec_fn(F) -> real,
    u: real,
    columns: Seq<Seq<F>>,
    diagonal: Seq<F>,
    b: Seq<F>,
    j: int,
    n: int,
    i: int,
    k: nat,
    r: real,
    s: real,
)
    requires
        rounded(val, u),
        0 <= j <= i < n <= columns.len(),
        n <= b.len(),
        approx(u, k, val(lower_solution(columns, diagonal, b, j, n)[i]), r, s),
    ensures
        ({
            let x = lower_solution(columns, diagonal, b, j, n);
            let row = row_of(val, columns, i);
            approx(
                u,
                k + j as nat,
                val(b[i]),
                r + sum(terms(val, row, x), 0, j),
                s + sum(magnitudes(val, row, x), 0, j),
            )
        }),
    decreases j,
{
    if j > 0 {
        let x = lower_solution(columns, diagonal, b, j, n);
        let y = lower_solution(columns, diagonal, b, j - 1, n);
        lemma_lower_solution_len(columns, diagonal, b, j - 1, n);
        let c = y[j - 1].over(diagonal[j - 1]);
        let row = row_of(val, columns, i);
        assert(x == axpy_spec(y.update(j - 1, c), c.negated(), columns[j - 1], j, n));
        assert(x[i] == c.negated().times(columns[j - 1][i]).plus(y[i]));
        assert(x[j - 1] == c);
        lemma_eliminated_unknown(val, u, k, y[i], c, columns[j - 1][i], r, s);
        let (f, g) = (terms(val, row, x), magnitudes(val, row, x));
        let (p, q) = (f(j - 1), g(j - 1));
        lemma_lower_solution_rounded(
            val,
            u,
            columns,
            diagonal,
            b,
            j - 1,
            n,
            i,
            k + 1,
            r + p,
            s + q,
        );
        assert forall|t: int| 0 <= t < j - 1 implies val(#[trigger] y[t]) == val(x[t]) by {}
        let (d, e) = (terms(val, row, y), magnitudes(val, row, y));
        lemma_sum_congruent(d, f, 0, j - 1);
        lemma_sum_congruent(e, g, 0, j - 1);
        assert(sum(f, 0, j) == sum(f, 0, j - 1) + p);
        assert(sum(g, 0, j) == sum(g, 0, j - 1) + q);
        assert(k + 1 + (j - 1) as nat == k + j as nat);
    } else {
        let x = lower_solution(columns, diagonal, b, j, n);
        let row = row_of(val, columns, i);
        assert(sum(terms(val, row, x), 0, 0) == 0 as real);
        assert(sum(magnitudes(val, row, x), 0, 0) == 0 as real);
    }
}

/// The steps after row `i` keep the first `i + 1` entries of the solution of `L * x = b`.
proof fn lemma_lower_solution_settled<F: Arithmetic>(
    columns: Seq<Seq<F>>,
    diagonal: Seq<F>,
    b: Seq<F>,
    j: int,
    n: int,
    i: int,
)
    requires
        0 <= i < j <= n <= b.len(),
    ensures
        forall|k: int|
            0 <= k <= i ==> #[trigger] lower_solution(columns, diagonal, b, j, n)[k]
                == lower_solution(columns, diagonal, b, i + 1, n)[k],
    decreases j,
{
    if j > i + 1 {
        lemma_lower_solution_settled(columns, diagonal, b, j - 1, n, i);
        lemma_lower_solution_len(columns, diagonal, b, j - 1, n);
    }
}

/// The substitution for `L * x = b` gives an `x` with `|b - L * x| <= gamma * |L| * |x|`, where no entry on
/// the diagonal is zero.
pub proof fn law_lower_solution_rounded<F: Arithmetic>(
    val: spec_fn(F) -> real,
    u: real,
    columns: Seq<Seq<F>>,
    diagonal: Seq<F>,
    b: Seq<F>,
    n: int,
    i: int,
)
    requires
        rounded(val, u),
        0 <= i < n <= columns.len(),
        n <= b.len(),
        val(diagonal[i]) != 0 as real,
    ensures
        is_row(
            val,
            u,
            n as nat,
            val(b[i]),
            |k: int| cholesky_entry(val, columns, diagonal, i, k),
            lower_solution(columns, diagonal, b, n, n),
            0,
            i + 1,
        ),
{
    let x = lower_solution(columns, diagonal, b, n, n);
    let y = lower_solution(columns, diagonal, b, i, n);
    let z = lower_solution(columns, diagonal, b, i + 1, n);
    let row = |k: int| cholesky_entry(val, columns, diagonal, i, k);
    lemma_lower_solution_len(columns, diagonal, b, i, n);
    lemma_lower_solution_settled(columns, diagonal, b, n, n, i);
    let c = y[i].over(diagonal[i]);
    assert(z[i] == c);
    lemma_divided(val, u, y[i], diagonal[i]);
    let (p, q) = (
        val(diagonal[i]) * val(c),
        absolute(val(diagonal[i])) * absolute(val(c)),
    );
    lemma_lower_solution_rounded(val, u, columns, diagonal, b, i, n, i, 1, p, q);
    let (f, g) = (terms(val, row, x), magnitudes(val, row, x));
    let (d, e) = (
        terms(val, row_of(val, columns, i), y),
        magnitudes(val, row_of(val, columns, i), y),
    );
    assert forall|k: int| 0 <= k < i implies x[k] == #[trigger] y[k] by {
        assert(x[k] == z[k]);
    }
    assert(x[i] == z[i]);
    assert forall|k: int| 0 <= k < i implies #[trigger] d(k) == f(k) by {
        assert(x[k] == y[k]);
    }
    assert forall|k: int| 0 <= k < i implies #[trigger] e(k) == g(k) by {
        assert(x[k] == y[k]);
    }
    lemma_sum_congruent(d, f, 0, i);
    lemma_sum_congruent(e, g, 0, i);
    assert(f(i) == p && g(i) == q);
    assert(sum(f, 0, i + 1) == sum(f, 0, i) + p);
    assert(sum(g, 0, i + 1) == sum(g, 0, i) + q);
    lemma_row_weaken(val, u, 1 + i as nat, n as nat, val(b[i]), row, x, 0, i + 1);
}

} // verus!
