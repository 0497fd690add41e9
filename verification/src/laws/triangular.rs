//! The substitutions solve their systems of equations.
use vstd::prelude::*;
use crate::laws::sums::{lemma_sum_congruent, sum};
use crate::laws::vectors::{lemma_dot, values};
use crate::scalar::{exact, Arithmetic};
use crate::triangular::{
    lower_solution, transposed_lower_solution, transposed_upper_solution, upper_solution,
};
use crate::vector::{axpy_spec, dot_spec};

verus! {

/// `R * x = b` for the upper triangular part `R` of the first `n` rows, in the rows without a zero on
/// the diagonal. In the others the entry of `x` is zero.
pub proof fn law_upper_solution<F: Arithmetic>(
    val: spec_fn(F) -> real,
    columns: Seq<Seq<F>>,
    b: Seq<F>,
    n: int,
    i: int,
)
    requires
        exact(val),
        0 <= i < n <= columns.len(),
        n <= b.len(),
        forall|k: int| 0 <= k < n ==> n <= (#[trigger] columns[k]).len(),
    ensures
        ({
            let x = upper_solution(columns, b, n);
            if val(columns[i][i]) == 0 as real {
                val(x[i]) == 0 as real
            } else {
                sum(|k: int| val(columns[k][i]) * val(x[k]), i, n) == val(b[i])
            }
        }),
    decreases n,
{
    let x = upper_solution(columns, b, n);
    let f = |k: int| val(columns[k][i]) * val(x[k]);
    assert(n <= columns[n - 1].len());
    let d = val(columns[n - 1][n - 1]);
    let c = if columns[n - 1][n - 1].vanishes() {
        F::zero_spec()
    } else {
        b[n - 1].over(columns[n - 1][n - 1])
    };
    let rest = if columns[n - 1][n - 1].vanishes() {
        b.update(n - 1, c)
    } else {
        axpy_spec(b.update(n - 1, c), c.negated(), columns[n - 1], 0, n - 1)
    };
    lemma_upper_solution_keeps(columns, rest, n - 1);
    assert(x == upper_solution(columns, rest, n - 1));
    assert(x[n - 1] == c);
    let p = val(c);
    if i == n - 1 {
        assert(sum(f, i, n) == sum(f, i, i) + f(i));
        if d != 0 as real {
            let q = val(b[i]);
            assert(d * p == q) by (nonlinear_arith)
                requires
                    p == q / d,
                    d != 0 as real,
            ;
        }
    } else {
        assert forall|k: int| 0 <= k < n - 1 implies n - 1 <= (#[trigger] columns[k]).len() by {
            assert(n <= columns[k].len());
        }
        law_upper_solution(val, columns, rest, n - 1, i);
        assert(sum(f, i, n) == sum(f, i, n - 1) + f(n - 1));
        let e = val(columns[n - 1][i]);
        if d != 0 as real {
            assert(rest[i] == c.negated().times(columns[n - 1][i]).plus(b[i]));
            assert((-p) * e + e * p == 0 as real) by (nonlinear_arith);
        } else {
            assert(e * p == 0 as real) by (nonlinear_arith)
                requires
                    p == 0 as real,
            ;
        }
    }
}

/// The substitution upwards keeps the rows after the first `n`.
pub proof fn lemma_upper_solution_keeps<F: Arithmetic>(
    columns: Seq<Seq<F>>,
    b: Seq<F>,
    n: int,
)
    requires
        0 <= n <= b.len(),
    ensures
        upper_solution(columns, b, n).len() == b.len(),
        forall|k: int| n <= k < b.len() ==> #[trigger] upper_solution(columns, b, n)[k] == b[k],
    decreases n,
{
    if n > 0 {
        let c = b[n - 1].over(columns[n - 1][n - 1]);
        let rest = if columns[n - 1][n - 1].vanishes() {
            b.update(n - 1, F::zero_spec())
        } else {
            axpy_spec(b.update(n - 1, c), c.negated(), columns[n - 1], 0, n - 1)
        };
        lemma_upper_solution_keeps(columns, rest, n - 1);
    }
}

/// The substitution downwards keeps the first `i` rows.
pub proof fn lemma_transposed_upper_solution_keeps<F: Arithmetic>(
    columns: Seq<Seq<F>>,
    b: Seq<F>,
    i: int,
    n: int,
)
    requires
        0 <= i <= n <= b.len(),
    ensures
        transposed_upper_solution(columns, b, i, n).len() == b.len(),
        forall|k: int|
            0 <= k < i ==> #[trigger] transposed_upper_solution(columns, b, i, n)[k] == b[k],
    decreases n - i,
{
    if i < n && !columns[i][i].vanishes() {
        let x = b[i].minus(dot_spec(columns[i], b, 0, i)).over(columns[i][i]);
        let rest = b.update(i, x);
        lemma_transposed_upper_solution_keeps(columns, rest, i + 1, n);
        assert forall|k: int| 0 <= k < i implies #[trigger] transposed_upper_solution(
            columns,
            b,
            i,
            n,
        )[k] == b[k] by {
            assert(rest[k] == b[k]);
            assert(transposed_upper_solution(columns, rest, i + 1, n)[k] == rest[k]);
        }
    }
}

/// `R^T * x = b` for the upper triangular part `R` of the first `n` rows, where no entry on the
/// diagonal is zero. The substitution may start in row `i`, which is the case `i = 0`.
pub proof fn law_transposed_upper_solution<F: Arithmetic>(
    val: spec_fn(F) -> real,
    columns: Seq<Seq<F>>,
    b: Seq<F>,
    i: int,
    n: int,
    q: int,
)
    requires
        exact(val),
        0 <= i <= q < n <= columns.len(),
        n <= b.len(),
        forall|k: int|
            0 <= k < n ==> n <= (#[trigger] columns[k]).len() && val(columns[k][k]) != 0 as real,
    ensures
        ({
            let x = transposed_upper_solution(columns, b, i, n);
            sum(|k: int| val(columns[q][k]) * val(x[k]), 0, q + 1) == val(b[q])
        }),
    decreases n - i,
{
    let x = transposed_upper_solution(columns, b, i, n);
    assert(n <= columns[i].len());
    let c = b[i].minus(dot_spec(columns[i], b, 0, i)).over(columns[i][i]);
    let rest = b.update(i, c);
    assert(x == transposed_upper_solution(columns, rest, i + 1, n));
    if q == i {
        lemma_transposed_upper_solution_keeps(columns, rest, i + 1, n);
        lemma_dot(val, columns[i], b, 0, i);
        let f = |k: int| val(columns[i][k]) * val(x[k]);
        let g = |k: int| values(val, columns[i])[k] * values(val, b)[k];
        assert forall|k: int| 0 <= k < i implies #[trigger] f(k) == g(k) by {
            assert(x[k] == rest[k]);
        }
        lemma_sum_congruent(f, g, 0, i);
        assert(x[i] == rest[i]);
        let (d, s, t, p) = (val(columns[i][i]), sum(g, 0, i), val(b[i]), val(c));
        assert(d * p + s == t) by (nonlinear_arith)
            requires
                p == (t - s) / d,
                d != 0 as real,
        ;
        assert(sum(f, 0, i + 1) == sum(f, 0, i) + f(i));
    } else {
        law_transposed_upper_solution(val, columns, rest, i + 1, n, q);
    }
}

/// After `j` steps the rows `j`, ... hold what the solved rows leave of the right hand side.
proof fn lemma_lower_solution<F: Arithmetic>(
    val: spec_fn(F) -> real,
    columns: Seq<Seq<F>>,
    diagonal: Seq<F>,
    b: Seq<F>,
    j: int,
    n: int,
    i: int,
)
    requires
        exact(val),
        0 <= j <= n <= columns.len(),
        0 <= i < n,
        n <= b.len(),
        n <= diagonal.len(),
        forall|k: int| 0 <= k < n ==> n <= (#[trigger] columns[k]).len(),
        forall|k: int| 0 <= k < n ==> val(#[trigger] diagonal[k]) != 0 as real,
    ensures
        lower_solution(columns, diagonal, b, j, n).len() == b.len(),
        ({
            let y = lower_solution(columns, diagonal, b, j, n);
            let f = |k: int| val(columns[k][i]) * val(y[k]);
            if j <= i {
                val(y[i]) + sum(f, 0, j) == val(b[i])
            } else {
                val(diagonal[i]) * val(y[i]) + sum(f, 0, i) == val(b[i])
            }
        }),
    decreases j,
{
    if j > 0 {
        lemma_lower_solution(val, columns, diagonal, b, j - 1, n, i);
        let y = lower_solution(columns, diagonal, b, j - 1, n);
        let c = y[j - 1].over(diagonal[j - 1]);
        let z = lower_solution(columns, diagonal, b, j, n);
        assert(n <= columns[j - 1].len());
        assert(z =~= axpy_spec(y.update(j - 1, c), c.negated(), columns[j - 1], j, n));
        let f = |k: int| val(columns[k][i]) * val(y[k]);
        let g = |k: int| val(columns[k][i]) * val(z[k]);
        assert forall|k: int| 0 <= k < j - 1 implies #[trigger] f(k) == g(k) by {
            assert(z[k] == y[k]);
        }
        assert(z[j - 1] == c);
        let p = val(c);
        if j <= i {
            lemma_sum_congruent(f, g, 0, j - 1);
            assert(sum(g, 0, j) == sum(g, 0, j - 1) + g(j - 1));
            assert(z[i] == c.negated().times(columns[j - 1][i]).plus(y[i]));
            let e = val(columns[j - 1][i]);
            assert((-p) * e + e * p == 0 as real) by (nonlinear_arith);
        } else if i == j - 1 {
            lemma_sum_congruent(f, g, 0, i);
            let d = val(diagonal[i]);
            let q = val(y[i]);
            assert(d * p == q) by (nonlinear_arith)
                requires
                    p == q / d,
                    d != 0 as real,
            ;
        } else {
            lemma_sum_congruent(f, g, 0, i);
            assert(z[i] == y[i]);
        }
    } else {
        let f = |k: int| val(columns[k][i]) * val(b[k]);
        assert(sum(f, 0, 0) == 0 as real);
    }
}

/// The substitution keeps the number of rows.
pub proof fn lemma_lower_solution_len<F: Arithmetic>(
    columns: Seq<Seq<F>>,
    diagonal: Seq<F>,
    b: Seq<F>,
    j: int,
    n: int,
)
    requires
        j <= b.len(),
    ensures
        lower_solution(columns, diagonal, b, j, n).len() == b.len(),
    decreases j,
{
    if j > 0 {
        lemma_lower_solution_len(columns, diagonal, b, j - 1, n);
    }
}

/// `L * x = b` for the lower triangular matrix with the given diagonal, on which no entry is
/// zero, and the strictly lower part of `columns`.
pub proof fn law_lower_solution<F: Arithmetic>(
    val: spec_fn(F) -> real,
    columns: Seq<Seq<F>>,
    diagonal: Seq<F>,
    b: Seq<F>,
    n: int,
    i: int,
)
    requires
        exact(val),
        0 <= i < n <= columns.len(),
        n <= b.len(),
        n <= diagonal.len(),
        forall|k: int| 0 <= k < n ==> n <= (#[trigger] columns[k]).len(),
        forall|k: int| 0 <= k < n ==> val(#[trigger] diagonal[k]) != 0 as real,
    ensures
        ({
            let x = lower_solution(columns, diagonal, b, n, n);
            sum(|k: int| val(columns[k][i]) * val(x[k]), 0, i) + val(diagonal[i]) * val(x[i])
                == val(b[i])
        }),
{
    lemma_lower_solution(val, columns, diagonal, b, n, n, i);
}

/// The substitution keeps the rows before `j` and the rows after the first `n`.
pub proof fn lemma_transposed_lower_solution_keeps<F: Arithmetic>(
    columns: Seq<Seq<F>>,
    diagonal: Seq<F>,
    b: Seq<F>,
    j: int,
    n: int,
)
    requires
        0 <= j <= n <= b.len(),
    ensures
        transposed_lower_solution(columns, diagonal, b, j, n).len() == b.len(),
        forall|k: int|
            0 <= k < j || n <= k < b.len() ==> #[trigger] transposed_lower_solution(
                columns,
                diagonal,
                b,
                j,
                n,
            )[k] == b[k],
    decreases n - j,
{
    if j < n {
        lemma_transposed_lower_solution_keeps(columns, diagonal, b, j + 1, n);
        let y = transposed_lower_solution(columns, diagonal, b, j + 1, n);
        assert forall|k: int| 0 <= k < j || n <= k < b.len() implies
            #[trigger] transposed_lower_solution(columns, diagonal, b, j, n)[k] == b[k] by {
            assert(y[k] == b[k]);
        }
    }
}

/// `L^T * x = b` in the first `n` rows, for the lower triangular matrix with the given diagonal
/// and the strictly lower part of `columns`, except in the rows with a zero on the diagonal. In
/// these the entry of `x` is zero. The substitution may end in row `j`, which is the case `j = 0`.
pub proof fn law_transposed_lower_solution<F: Arithmetic>(
    val: spec_fn(F) -> real,
    columns: Seq<Seq<F>>,
    diagonal: Seq<F>,
    b: Seq<F>,
    j: int,
    n: int,
    i: int,
)
    requires
        exact(val),
        0 <= j <= i < n <= columns.len(),
        n <= b.len(),
        n <= diagonal.len(),
        forall|k: int| 0 <= k < n ==> n <= (#[trigger] columns[k]).len(),
    ensures
        ({
            let x = transposed_lower_solution(columns, diagonal, b, j, n);
            if val(diagonal[i]) == 0 as real {
                val(x[i]) == 0 as real
            } else {
                val(diagonal[i]) * val(x[i]) + sum(
                    |k: int| val(columns[i][k]) * val(x[k]),
                    i + 1,
                    n,
                ) == val(b[i])
            }
        }),
    decreases n - j,
{
    let x = transposed_lower_solution(columns, diagonal, b, j, n);
    let y = transposed_lower_solution(columns, diagonal, b, j + 1, n);
    lemma_transposed_lower_solution_keeps(columns, diagonal, b, j + 1, n);
    assert(n <= columns[j].len());
    let c = if diagonal[j].vanishes() {
        F::zero_spec()
    } else {
        y[j].minus(dot_spec(columns[j], y, j + 1, n)).over(diagonal[j])
    };
    assert(x == y.update(j, c));
    let f = |k: int| val(columns[i][k]) * val(x[k]);
    let g = |k: int| val(columns[i][k]) * val(y[k]);
    assert forall|k: int| i + 1 <= k < n implies #[trigger] f(k) == g(k) by {
        assert(x[k] == y[k]);
    }
    lemma_sum_congruent(f, g, i + 1, n);
    if i != j {
        law_transposed_lower_solution(val, columns, diagonal, b, j + 1, n, i);
        assert(x[i] == y[i]);
    } else if val(diagonal[j]) != 0 as real {
        lemma_dot(val, columns[j], y, j + 1, n);
        let h = |k: int| values(val, columns[j])[k] * values(val, y)[k];
        assert forall|k: int| j + 1 <= k < n implies #[trigger] h(k) == g(k) by {}
        lemma_sum_congruent(h, g, j + 1, n);
        assert(y[j] == b[j]);
        let (d, s, t, p) = (val(diagonal[j]), sum(g, j + 1, n), val(b[j]), val(c));
        assert(d * p + s == t) by (nonlinear_arith)
            requires
                p == (t - s) / d,
                d != 0 as real,
        ;
    }
}

} // verus!
