//! What becomes of values that are not numbers.
//!
//! None of these laws asks anything of the rounding.
use vstd::prelude::*;
use crate::cholesky::{lower_product, lower_row_sum, transposed_upper_product};
use crate::householder::{lemma_reflect_all_len, reflect_all, reflect_spec};
use crate::laws::triangular::lemma_upper_solution_keeps;
use crate::lls::{
    max_scaled, scattered, solution_with_zero_diagonal, upper_product, upper_row_sum, LeastSquares,
};
use crate::qr::{least_squares, Factorization};
use crate::scalar::Arithmetic;
use crate::triangular::{
    lower_solution, transposed_lower_solution, transposed_upper_solution, upper_solution,
};
use crate::vector::{
    axpy_spec, block_sum, blocks, dot_spec, lane_sum, norm_squared_spec, running_sum,
};

verus! {

/// Whether one of the computations for the column of `A` in position `j` is undefined: the dot product of
/// column `j` of `R` with `Q^T * b`, the norm of the column, or their quotient. A column of norm zero
/// is not taken into account.
pub open spec fn quotient_undefined<F: Arithmetic>(p: LeastSquares<F>, j: int) -> bool {
    let norm = p.column_norms[p.permutation[j] as int];
    let product = dot_spec(p.columns[j], p.qt_b, 0, j + 1);
    &&& !norm.vanishes()
    &&& product.undefined() || norm.undefined() || product.magnitude().over(norm).undefined()
}

/// `max_a_t_b_scaled` returns `None` exactly where one of the computations is undefined, whatever
/// the number type is.
pub proof fn law_max_is_none<F: Arithmetic>(p: LeastSquares<F>, k: int)
    requires
        0 <= k,
    ensures
        max_scaled(p, k) is None <==> exists|j: int|
            0 <= j < k && #[trigger] quotient_undefined(p, j),
    decreases k,
{
    if k > 0 {
        law_max_is_none(p, k - 1);
        if max_scaled(p, k - 1) is None {
            let j = choose|j: int| 0 <= j < k - 1 && #[trigger] quotient_undefined(p, j);
            assert(0 <= j < k && quotient_undefined(p, j));
        }
        if max_scaled(p, k) is None && max_scaled(p, k - 1) is Some {
            assert(quotient_undefined(p, k - 1));
        }
        if exists|j: int| 0 <= j < k && #[trigger] quotient_undefined(p, j) {
            let j = choose|j: int| 0 <= j < k && #[trigger] quotient_undefined(p, j);
            if j < k - 1 {
                assert(max_scaled(p, k - 1) is None);
            }
        }
    }
}

/// Whether the operations hand an undefined operand on, as those of floating point types do.
pub open spec fn propagates<F: Arithmetic>() -> bool {
    &&& forall|a: F, b: F|
        a.undefined() || b.undefined() ==> (#[trigger] a.plus(b)).undefined()
    &&& forall|a: F, b: F|
        a.undefined() || b.undefined() ==> (#[trigger] a.minus(b)).undefined()
    &&& forall|a: F, b: F|
        a.undefined() || b.undefined() ==> (#[trigger] a.times(b)).undefined()
    &&& forall|a: F, b: F|
        a.undefined() || b.undefined() ==> (#[trigger] a.over(b)).undefined()
    &&& forall|a: F| a.undefined() ==> (#[trigger] a.negated()).undefined()
    &&& forall|a: F| a.undefined() ==> (#[trigger] a.magnitude()).undefined()
    &&& forall|a: F| a.undefined() ==> (#[trigger] a.root()).undefined()
    &&& forall|a: F| a.undefined() ==> !(#[trigger] a.vanishes())
}

/// One of the eight sums is undefined where one of its terms is.
proof fn lemma_lane_undefined<F: Arithmetic>(x: Seq<F>, y: Seq<F>, i: int, k: int, t: int)
    requires
        propagates::<F>(),
        0 <= t < k,
        x[i + 8 * t].undefined() || y[i + 8 * t].undefined(),
    ensures
        lane_sum(x, y, i, k).undefined(),
    decreases k,
{
    if t < k - 1 {
        lemma_lane_undefined(x, y, i, k - 1, t);
    }
}

/// A sum that is added to is undefined where its start or one of the terms is.
proof fn lemma_running_undefined<F: Arithmetic>(
    x: Seq<F>,
    y: Seq<F>,
    start: F,
    lo: int,
    hi: int,
    i: int,
)
    requires
        propagates::<F>(),
        start.undefined() || (lo <= i < hi && (x[i].undefined() || y[i].undefined())),
    ensures
        running_sum(x, y, start, lo, hi).undefined(),
    decreases hi - lo,
{
    if hi > lo {
        if start.undefined() || i < hi - 1 {
            lemma_running_undefined(x, y, start, lo, hi - 1, i);
        }
    }
}

/// A dot product is undefined where an entry of one of the vectors is.
pub proof fn law_dot_undefined<F: Arithmetic>(x: Seq<F>, y: Seq<F>, lo: int, hi: int, i: int)
    requires
        propagates::<F>(),
        lo <= i < hi,
        x[i].undefined() || y[i].undefined(),
    ensures
        dot_spec(x, y, lo, hi).undefined(),
{
    reveal(dot_spec);
    let k = blocks(lo, hi);
    if i < lo + 8 * k {
        let (q, t) = ((i - lo) % 8, (i - lo) / 8);
        assert(i == lo + q + 8 * t);
        lemma_lane_undefined(x, y, lo + q, k, t);
        assert(lo + 0 == lo);
        assert(block_sum(x, y, lo, k).undefined());
    }
    lemma_running_undefined(x, y, block_sum(x, y, lo, k), lo + 8 * k, hi, i);
}

/// The square of a length is undefined where an entry is.
pub proof fn law_norm_squared_undefined<F: Arithmetic>(x: Seq<F>, i: int)
    requires
        propagates::<F>(),
        0 <= i < x.len(),
        x[i].undefined(),
    ensures
        norm_squared_spec(x).undefined(),
{
    if x.len() != 4 {
        law_dot_undefined(x, x, 0, x.len() as int, i);
    }
}

/// `max_a_t_b_scaled` returns `None` where an entry of `Q^T * b` that a column with a norm other than zero
/// reads is undefined.
pub proof fn law_max_of_undefined<F: Arithmetic>(p: LeastSquares<F>, i: int, j: int)
    requires
        propagates::<F>(),
        0 <= i <= j < p.columns.len(),
        p.qt_b[i].undefined() || p.columns[j][i].undefined(),
        !p.column_norms[p.permutation[j] as int].vanishes(),
    ensures
        max_scaled(p, p.columns.len() as int) is None,
{
    law_dot_undefined(p.columns[j], p.qt_b, 0, j + 1, i);
    assert(quotient_undefined(p, j));
    law_max_is_none(p, p.columns.len() as int);
}

/// A row of `R * P^T * x` is undefined where an entry of `x` that it reads is.
proof fn lemma_upper_row_undefined<F: Arithmetic>(
    p: LeastSquares<F>,
    x: Seq<F>,
    i: int,
    k: int,
    j: int,
)
    requires
        propagates::<F>(),
        0 <= i <= j < k,
        x[p.permutation[j] as int].undefined(),
    ensures
        upper_row_sum(p, x, i, k).undefined(),
    decreases k,
{
    if j < k - 1 {
        lemma_upper_row_undefined(p, x, i, k - 1, j);
    }
}

/// `a_x_norm_squared` is undefined where an entry of `x` is.
pub proof fn law_a_x_norm_undefined<F: Arithmetic>(p: LeastSquares<F>, x: Seq<F>, j: int)
    requires
        propagates::<F>(),
        0 <= j < p.columns.len(),
        x[p.permutation[j] as int].undefined(),
    ensures
        norm_squared_spec(upper_product(p, x)).undefined(),
{
    lemma_upper_row_undefined(p, x, 0, p.columns.len() as int, j);
    assert(upper_product(p, x)[0] == upper_row_sum(p, x, 0, p.columns.len() as int));
    law_norm_squared_undefined(upper_product(p, x), 0);
}

/// The partial row of `L * x` is undefined where an entry of `x` that it reads is.
proof fn lemma_lower_row_undefined<F: Arithmetic>(
    columns: Seq<Seq<F>>,
    x: Seq<F>,
    i: int,
    k: int,
    j: int,
)
    requires
        propagates::<F>(),
        0 <= j < k,
        x[j].undefined(),
    ensures
        lower_row_sum(columns, x, i, k).undefined(),
    decreases k,
{
    if j < k - 1 {
        lemma_lower_row_undefined(columns, x, i, k - 1, j);
    }
}

/// The rows of the results of `mul_qt_b` are undefined from an undefined entry of `Q^T * b` on.
pub proof fn law_mul_undefined<F: Arithmetic>(
    columns: Seq<Seq<F>>,
    diagonal: Seq<F>,
    x: Seq<F>,
    i: int,
    j: int,
)
    requires
        propagates::<F>(),
        0 <= j <= i < x.len(),
        x[j].undefined(),
    ensures
        lower_product(columns, diagonal, x)[i].undefined(),
        transposed_upper_product(columns, x)[i].undefined(),
{
    reveal(lower_product);
    if j < i {
        lemma_lower_row_undefined(columns, x, i, i, j);
    }
    law_dot_undefined(x, columns[i], 0, i + 1, j);
}

/// Adding a multiple of a vector hands an undefined entry on, and an undefined multiple makes all
/// entries undefined.
pub proof fn lemma_axpy_undefined<F: Arithmetic>(
    y: Seq<F>,
    a: F,
    x: Seq<F>,
    lo: int,
    hi: int,
    i: int,
)
    requires
        propagates::<F>(),
        0 <= i < y.len(),
        y[i].undefined() || (a.undefined() && lo <= i < hi),
    ensures
        axpy_spec(y, a, x, lo, hi)[i].undefined(),
{
}

/// In the result of the substitution for `R * x = b` the entries are undefined that are in `b`, but for
/// rows with a zero on the diagonal.
pub proof fn law_upper_solution_undefined<F: Arithmetic>(
    columns: Seq<Seq<F>>,
    b: Seq<F>,
    n: int,
    i: int,
)
    requires
        propagates::<F>(),
        0 <= i < n <= b.len(),
        b[i].undefined(),
        !columns[i][i].vanishes(),
    ensures
        upper_solution(columns, b, n)[i].undefined(),
    decreases n,
{
    let d = columns[n - 1][n - 1];
    if d.vanishes() {
        law_upper_solution_undefined(columns, b.update(n - 1, F::zero_spec()), n - 1, i);
    } else {
        let x = b[n - 1].over(d);
        let c = b.update(n - 1, x);
        let rest = axpy_spec(c, x.negated(), columns[n - 1], 0, n - 1);
        lemma_axpy_undefined(c, x.negated(), columns[n - 1], 0, n - 1, i);
        lemma_upper_undefined_kept(columns, rest, n - 1, i);
    }
}

/// The substitution does not make an undefined entry of `b` defined.
pub proof fn lemma_upper_undefined_kept<F: Arithmetic>(
    columns: Seq<Seq<F>>,
    b: Seq<F>,
    n: int,
    i: int,
)
    requires
        propagates::<F>(),
        0 <= n <= b.len(),
        0 <= i < b.len(),
        b[i].undefined(),
        i < n ==> !columns[i][i].vanishes(),
    ensures
        upper_solution(columns, b, n)[i].undefined(),
    decreases n,
{
    if n > 0 {
        let d = columns[n - 1][n - 1];
        if d.vanishes() {
            lemma_upper_undefined_kept(columns, b.update(n - 1, F::zero_spec()), n - 1, i);
        } else {
            let x = b[n - 1].over(d);
            let c = b.update(n - 1, x);
            let rest = axpy_spec(c, x.negated(), columns[n - 1], 0, n - 1);
            lemma_axpy_undefined(c, x.negated(), columns[n - 1], 0, n - 1, i);
            lemma_upper_undefined_kept(columns, rest, n - 1, i);
        }
    }
}

/// An undefined entry of `Q^T * b` makes the entry for that column of `R` in the result of
/// `solve_with_zero_diagonal` undefined, unless the diagonal entry is zero.
pub proof fn law_solve_with_zero_diagonal_undefined<F: Arithmetic>(
    p: LeastSquares<F>,
    x: Seq<F>,
    m: int,
    i: int,
)
    requires
        propagates::<F>(),
        p.wf(m),
        scattered(p.permutation, solution_with_zero_diagonal(p), x),
        0 <= i < p.columns.len(),
        p.qt_b[i].undefined(),
        !p.columns[i][i].vanishes(),
    ensures
        x[p.permutation[i] as int].undefined(),
{
    let n = p.columns.len() as int;
    law_upper_solution_undefined(p.columns, p.qt_b, n, i);
    lemma_upper_solution_keeps(p.columns, p.qt_b, n);
    assert(x[p.permutation[i] as int] == solution_with_zero_diagonal(p)[i]);
}

/// In the result of the substitution for `R^T * x = b` the entries are undefined that are in `b`, where no
/// entry on the diagonal is zero.
pub proof fn law_transposed_upper_solution_undefined<F: Arithmetic>(
    columns: Seq<Seq<F>>,
    b: Seq<F>,
    i: int,
    n: int,
    j: int,
)
    requires
        propagates::<F>(),
        0 <= i <= n <= b.len(),
        0 <= j < n,
        b[j].undefined(),
        forall|k: int| i <= k < n ==> !(#[trigger] columns[k])[k].vanishes(),
    ensures
        transposed_upper_solution(columns, b, i, n)[j].undefined(),
    decreases n - i,
{
    if i < n {
        assert(!columns[i][i].vanishes());
        let x = b[i].minus(dot_spec(columns[i], b, 0, i)).over(columns[i][i]);
        law_transposed_upper_solution_undefined(columns, b.update(i, x), i + 1, n, j);
    }
}

/// In the result of the substitution for `L * x = b` the entries are undefined that are in `b`.
pub proof fn law_lower_solution_undefined<F: Arithmetic>(
    columns: Seq<Seq<F>>,
    diagonal: Seq<F>,
    b: Seq<F>,
    j: int,
    n: int,
    i: int,
)
    requires
        propagates::<F>(),
        j <= n <= b.len(),
        0 <= i < n,
        b[i].undefined(),
    ensures
        lower_solution(columns, diagonal, b, j, n).len() == b.len(),
        lower_solution(columns, diagonal, b, j, n)[i].undefined(),
    decreases j,
{
    if j > 0 {
        law_lower_solution_undefined(columns, diagonal, b, j - 1, n, i);
    }
}

/// In the result of the substitution for `L^T * x = b` the entries are undefined that are in `b`, but for
/// rows with a zero on the diagonal.
pub proof fn law_transposed_lower_solution_undefined<F: Arithmetic>(
    columns: Seq<Seq<F>>,
    diagonal: Seq<F>,
    b: Seq<F>,
    j: int,
    n: int,
    i: int,
)
    requires
        propagates::<F>(),
        0 <= j <= n <= b.len(),
        0 <= i < n,
        b[i].undefined(),
        !diagonal[i].vanishes(),
    ensures
        transposed_lower_solution(columns, diagonal, b, j, n).len() == b.len(),
        transposed_lower_solution(columns, diagonal, b, j, n)[i].undefined(),
    decreases n - j,
{
    if j < n {
        law_transposed_lower_solution_undefined(columns, diagonal, b, j + 1, n, i);
    }
}

/// Reflections keep undefined entries, and the first one that is not skipped makes all of the rows that it
/// reaches undefined.
proof fn lemma_reflect_all_undefined<F: Arithmetic>(
    columns: Seq<Seq<F>>,
    b: Seq<F>,
    m: int,
    k: int,
    i: int,
    r: int,
)
    requires
        propagates::<F>(),
        0 <= k <= m,
        b.len() == m,
        0 <= i < m,
        0 <= r < m,
        b[i].undefined(),
        r == i || (k > 0 && !columns[0][0].vanishes()),
    ensures
        reflect_all(columns, b, k).len() == m,
        reflect_all(columns, b, k)[r].undefined(),
    decreases k,
{
    lemma_reflect_all_len(columns, b, k);
    if k > 0 {
        let y = reflect_all(columns, b, k - 1);
        lemma_reflect_all_len(columns, b, k - 1);
        if r == i || k - 1 > 0 {
            lemma_reflect_all_undefined(columns, b, m, k - 1, i, r);
            if !columns[k - 1][k - 1].vanishes() {
                let c = dot_spec(y, columns[k - 1], k - 1, m).over(
                    columns[k - 1][k - 1],
                ).negated();
                lemma_axpy_undefined(y, c, columns[k - 1], k - 1, m, r);
                assert(reflect_spec(columns[k - 1], k - 1, y)[r].undefined());
            }
        } else {
            assert(y == b);
            law_dot_undefined(y, columns[0], 0, m, i);
            let c = dot_spec(y, columns[0], 0, m).over(columns[0][0]).negated();
            lemma_axpy_undefined(y, c, columns[0], 0, m, r);
            assert(reflect_spec(columns[0], 0, y)[r].undefined());
        }
    }
}

/// A vector `b` with an undefined entry gives a `Q^T * b` without a defined entry, and
/// `max_a_t_b_scaled` then returns `None`, where the first Householder vector is not zero and not all
/// columns of `A` have the norm zero.
pub proof fn law_undefined_b<F: Arithmetic>(
    f: Factorization<F>,
    b: Seq<F>,
    m: int,
    i: int,
)
    requires
        propagates::<F>(),
        f.wf(m),
        f.columns.len() > 0,
        b.len() == m,
        0 <= i < m,
        b[i].undefined(),
        !f.columns[0][0].vanishes(),
    ensures
        ({
            let p = least_squares(f, b);
            let n = f.columns.len() as int;
            &&& forall|k: int| 0 <= k < n ==> (#[trigger] p.qt_b[k]).undefined()
            &&& (exists|j: int|
                0 <= j < n && !f.column_norms[#[trigger] f.permutation[j] as int].vanishes())
                ==> max_scaled(p, n) is None
        }),
{
    let p = least_squares(f, b);
    let n = f.columns.len() as int;
    assert forall|k: int| 0 <= k < n implies (#[trigger] p.qt_b[k]).undefined() by {
        lemma_reflect_all_undefined(f.columns, b, m, n, i, k);
    }
    if exists|j: int|
        0 <= j < n && !f.column_norms[#[trigger] f.permutation[j] as int].vanishes() {
        let j = choose|j: int|
            0 <= j < n && !f.column_norms[#[trigger] f.permutation[j] as int].vanishes();
        assert(p.qt_b[0].undefined());
        law_max_of_undefined(p, 0, j);
    }
}

} // verus!
