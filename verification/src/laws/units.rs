//! A whole problem that is given in another unit.
use vstd::prelude::*;
use crate::cholesky::gather;
use crate::givens::{eliminate_entries, rotate_rows, rotate_spec, with_row, Elimination};
use crate::householder::{lemma_reflect_all_len, reflect_all, reflect_spec, reflector, signed_norm};
use crate::laws::accumulation::lemma_reduce_wf;
use crate::laws::elimination::{fits, lemma_rotate_fits};
use crate::laws::scaling::{
    in_unit, law_dot_scaled, law_norm_scaled, law_rotation_scaled,
    law_transposed_lower_solution_scaled, law_upper_solution_scaled, lemma_dot_congruent,
    lemma_whole_norm_scaled, scales,
};
use crate::laws::solutions::start;
use crate::lls::{
    diagonal_of, eliminated, elimination, max_scaled, solution_with_diagonal,
    solution_with_zero_diagonal, upper_product, upper_row_sum, LeastSquares,
};
use crate::matrix::has_rows;
use crate::permutation::{is_permutation, lemma_exchange_is_permutation};
use crate::qr::{downdate_spec, factorization, least_squares, pivot, reduce, reduced, Factorization};
use crate::scalar::Arithmetic;
use crate::vector::{argmax_spec, dot_spec, norm_spec, norm_squared_spec};

verus! {

/// Whether the state `t` is `s` in another unit, in the first `n` rows.
spec fn state_in_unit<F>(
    phi: spec_fn(F) -> F,
    s: Elimination<F>,
    t: Elimination<F>,
    n: int,
) -> bool {
    &&& fits(s, n)
    &&& fits(t, n)
    &&& forall|k: int, i: int|
        0 <= k < n && 0 <= i < n ==> #[trigger] t.columns[k][i] == phi(s.columns[k][i])
    &&& in_unit(phi, s.row, t.row, 0, n)
    &&& in_unit(phi, s.rhs, t.rhs, 0, n)
    &&& t.carry == phi(s.carry)
}

/// The rotation of a row in another unit.
proof fn lemma_rotate_scaled<F: Arithmetic>(
    phi: spec_fn(F) -> F,
    s: Elimination<F>,
    t: Elimination<F>,
    k: int,
    n: int,
)
    requires
        scales(phi),
        state_in_unit(phi, s, t, n),
        0 <= k < n,
    ensures
        state_in_unit(phi, rotate_spec(s, k), rotate_spec(t, k), n),
{
    let (s2, t2) = (rotate_spec(s, k), rotate_spec(t, k));
    lemma_rotate_fits(s, k, n);
    lemma_rotate_fits(t, k, n);
    assert(t.row[k] == phi(s.row[k]));
    assert(t.columns[k][k] == phi(s.columns[k][k]));
    assert(t.rhs[k] == phi(s.rhs[k]));
    if !s.row[k].vanishes() {
        law_rotation_scaled(phi, s.columns[k][k], s.row[k]);
        assert(n <= s.columns[k].len() && n <= t.columns[k].len());
        assert forall|c: int, i: int| 0 <= c < n && 0 <= i < n implies #[trigger] t2.columns[c][i]
            == phi(s2.columns[c][i]) by {
            assert(t.columns[c][i] == phi(s.columns[c][i]));
            assert(t.row[i] == phi(s.row[i]));
        }
        assert forall|i: int| 0 <= i < n implies #[trigger] t2.row[i] == phi(s2.row[i]) by {
            assert(t.columns[k][i] == phi(s.columns[k][i]));
            assert(t.row[i] == phi(s.row[i]));
        }
        assert forall|i: int| 0 <= i < n implies #[trigger] t2.rhs[i] == phi(s2.rhs[i]) by {
            assert(t.rhs[i] == phi(s.rhs[i]));
        }
    }
}

/// The rotation of rows in another unit.
proof fn lemma_rotate_rows_scaled<F: Arithmetic>(
    phi: spec_fn(F) -> F,
    s: Elimination<F>,
    t: Elimination<F>,
    lo: int,
    hi: int,
    n: int,
)
    requires
        scales(phi),
        state_in_unit(phi, s, t, n),
        0 <= lo <= hi <= n,
    ensures
        state_in_unit(phi, rotate_rows(s, lo, hi), rotate_rows(t, lo, hi), n),
    decreases hi - lo,
{
    if lo < hi {
        lemma_rotate_rows_scaled(phi, s, t, lo, hi - 1, n);
        lemma_rotate_scaled(
            phi,
            rotate_rows(s, lo, hi - 1),
            rotate_rows(t, lo, hi - 1),
            hi - 1,
            n,
        );
    }
}

/// The elimination of a diagonal matrix in another unit.
proof fn lemma_eliminate_scaled<F: Arithmetic>(
    phi: spec_fn(F) -> F,
    s: Elimination<F>,
    t: Elimination<F>,
    diagonal: Seq<F>,
    diagonal2: Seq<F>,
    original: Seq<F>,
    original2: Seq<F>,
    j: int,
    n: int,
)
    requires
        scales(phi),
        state_in_unit(phi, s, t, n),
        0 <= j <= n,
        in_unit(phi, diagonal, diagonal2, 0, n),
        in_unit(phi, original, original2, 0, n),
    ensures
        state_in_unit(
            phi,
            eliminate_entries(s, diagonal, original, j),
            eliminate_entries(t, diagonal2, original2, j),
            n,
        ),
    decreases j,
{
    if j > 0 {
        lemma_eliminate_scaled(
            phi,
            s,
            t,
            diagonal,
            diagonal2,
            original,
            original2,
            j - 1,
            n,
        );
        let s1 = eliminate_entries(s, diagonal, original, j - 1);
        let t1 = eliminate_entries(t, diagonal2, original2, j - 1);
        let (d, d2) = (diagonal[j - 1], diagonal2[j - 1]);
        assert(d2 == phi(d));
        assert(original2[j - 1] == phi(original[j - 1]));
        let (s2, t2) = (with_row(s1, j - 1, d), with_row(t1, j - 1, d2));
        assert(state_in_unit(phi, s2, t2, n)) by {
            assert forall|k: int| 0 <= k < n implies n <= (#[trigger] s2.columns[k]).len() by {
                assert(n <= s1.columns[k].len());
            }
            assert forall|k: int| 0 <= k < n implies n <= (#[trigger] t2.columns[k]).len() by {
                assert(n <= t1.columns[k].len());
            }
            assert forall|i: int| 0 <= i < n implies #[trigger] t2.row[i] == phi(s2.row[i]) by {
                assert(t1.row[i] == phi(s1.row[i]));
            }
            assert forall|i: int| 0 <= i < n implies #[trigger] t2.rhs[i] == phi(s2.rhs[i]) by {
                assert(t1.rhs[i] == phi(s1.rhs[i]));
            }
            assert forall|k: int, i: int|
                0 <= k < n && 0 <= i < n implies #[trigger] t2.columns[k][i] == phi(
                s2.columns[k][i],
            ) by {
                assert(t1.columns[k][i] == phi(s1.columns[k][i]));
            }
        }
        lemma_rotate_rows_scaled(phi, s2, t2, j - 1, n, n);
        let (s3, t3) = if d.vanishes() {
            (s1, t1)
        } else {
            (rotate_rows(s2, j - 1, n), rotate_rows(t2, j - 1, n))
        };
        assert(state_in_unit(phi, s3, t3, n));
        let s4 = eliminate_entries(s, diagonal, original, j);
        let t4 = eliminate_entries(t, diagonal2, original2, j);
        assert(n <= s3.columns[j - 1].len() && n <= t3.columns[j - 1].len());
        assert(t3.columns[j - 1][j - 1] == phi(s3.columns[j - 1][j - 1]));
        assert forall|k: int| 0 <= k < n implies n <= (#[trigger] s4.columns[k]).len() by {
            assert(n <= s3.columns[k].len());
        }
        assert forall|k: int| 0 <= k < n implies n <= (#[trigger] t4.columns[k]).len() by {
            assert(n <= t3.columns[k].len());
        }
        assert forall|i: int| 0 <= i < n implies #[trigger] t4.row[i] == phi(s4.row[i]) by {
            assert(t3.row[i] == phi(s3.row[i]));
        }
        assert forall|i: int| 0 <= i < n implies #[trigger] t4.rhs[i] == phi(s4.rhs[i]) by {
            assert(t3.rhs[i] == phi(s3.rhs[i]));
        }
        assert forall|k: int, i: int|
            0 <= k < n && 0 <= i < n implies #[trigger] t4.columns[k][i] == phi(
            s4.columns[k][i],
        ) by {
            assert(t3.columns[k][i] == phi(s3.columns[k][i]));
        }
    }
}

/// Whether the problem `q` is `p` in another unit.
pub open spec fn problem_in_unit<F>(
    phi: spec_fn(F) -> F,
    p: LeastSquares<F>,
    q: LeastSquares<F>,
    m: int,
) -> bool {
    let n = p.columns.len() as int;
    &&& p.wf(m)
    &&& q.wf(m)
    &&& q.columns.len() == n
    &&& q.permutation == p.permutation
    &&& forall|k: int| 0 <= k < n ==> in_unit(phi, p.columns[k], #[trigger] q.columns[k], 0, k + 1)
    &&& in_unit(phi, p.qt_b, q.qt_b, 0, n)
    &&& in_unit(phi, p.l_diag, q.l_diag, 0, n)
    &&& in_unit(phi, p.column_norms, q.column_norms, 0, n)
}

/// The solution without a diagonal matrix is the same in another unit.
pub proof fn law_solve_with_zero_diagonal_scaled<F: Arithmetic>(
    phi: spec_fn(F) -> F,
    p: LeastSquares<F>,
    q: LeastSquares<F>,
    m: int,
)
    requires
        scales(phi),
        problem_in_unit(phi, p, q, m),
    ensures
        solution_with_zero_diagonal(q) == solution_with_zero_diagonal(p),
{
    law_upper_solution_scaled(phi, p.columns, q.columns, p.qt_b, q.qt_b, p.columns.len() as int);
}

/// The solution with a diagonal matrix is the same in another unit, and the factor `L` is in that unit.
pub proof fn law_solve_with_diagonal_scaled<F: Arithmetic>(
    phi: spec_fn(F) -> F,
    p: LeastSquares<F>,
    q: LeastSquares<F>,
    m: int,
    diag: Seq<F>,
    diag2: Seq<F>,
)
    requires
        scales(phi),
        problem_in_unit(phi, p, q, m),
        diag.len() == p.columns.len(),
        diag2.len() == p.columns.len(),
        in_unit(phi, diag, diag2, 0, diag.len() as int),
    ensures
        solution_with_diagonal(q, diag2) == solution_with_diagonal(p, diag),
        in_unit(
            phi,
            eliminated(p, diag).l_diag,
            eliminated(q, diag2).l_diag,
            0,
            p.columns.len() as int,
        ),
{
    let n = p.columns.len() as int;
    let (s, t) = (start(p), start(q));
    assert(state_in_unit(phi, s, t, n)) by {
        assert forall|k: int| 0 <= k < n implies n <= (#[trigger] s.columns[k]).len() by {
            assert(p.columns[k].len() == m);
        }
        assert forall|k: int| 0 <= k < n implies n <= (#[trigger] t.columns[k]).len() by {
            assert(q.columns[k].len() == m);
        }
        assert forall|k: int, i: int| 0 <= k < n && 0 <= i < n implies #[trigger] t.columns[k][i]
            == phi(s.columns[k][i]) by {
            assert(p.columns[k].len() == m && q.columns[k].len() == m);
            if k < i {
                assert(in_unit(phi, p.columns[i], q.columns[i], 0, i + 1));
                assert(q.columns[i][k] == phi(p.columns[i][k]));
            } else {
                assert(in_unit(phi, p.columns[k], q.columns[k], 0, k + 1));
                assert(q.columns[k][i] == phi(p.columns[k][i]));
            }
        }
    }
    let (d, d2) = (gather(p.permutation, diag), gather(q.permutation, diag2));
    assert forall|i: int| 0 <= i < n implies #[trigger] d2[i] == phi(d[i]) by {
        assert(diag2[p.permutation[i] as int] == phi(diag[p.permutation[i] as int]));
    }
    let (o, o2) = (diagonal_of(p.columns), diagonal_of(q.columns));
    assert forall|i: int| 0 <= i < n implies #[trigger] o2[i] == phi(o[i]) by {
        assert(in_unit(phi, p.columns[i], q.columns[i], 0, i + 1));
        assert(q.columns[i][i] == phi(p.columns[i][i]));
    }
    lemma_eliminate_scaled(phi, s, t, d, d2, o, o2, n, n);
    let (e, f) = (elimination(p, diag, p.qt_b), elimination(q, diag2, q.qt_b));
    assert forall|k: int| 0 <= k < n implies in_unit(
        phi,
        e.columns[k],
        #[trigger] f.columns[k],
        k + 1,
        n,
    ) by {
        assert forall|i: int| k + 1 <= i < n implies #[trigger] f.columns[k][i] == phi(
            e.columns[k][i],
        ) by {}
    }
    law_transposed_lower_solution_scaled(
        phi,
        e.columns,
        f.columns,
        e.row,
        f.row,
        e.rhs,
        f.rhs,
        0,
        n,
    );
    assert(solution_with_diagonal(q, diag2) =~= solution_with_diagonal(p, diag));
}

/// `max_a_t_b_scaled` is in the unit of the problem.
pub proof fn law_max_scaled_in_unit<F: Arithmetic>(
    phi: spec_fn(F) -> F,
    p: LeastSquares<F>,
    q: LeastSquares<F>,
    m: int,
    k: int,
)
    requires
        scales(phi),
        problem_in_unit(phi, p, q, m),
        0 <= k <= p.columns.len(),
    ensures
        max_scaled(q, k) == match max_scaled(p, k) {
            None => None,
            Some(max) => Some(phi(max)),
        },
    decreases k,
{
    if k > 0 {
        law_max_scaled_in_unit(phi, p, q, m, k - 1);
        let j = p.permutation[k - 1] as int;
        assert(q.column_norms[j] == phi(p.column_norms[j]));
        assert(in_unit(phi, p.columns[k - 1], q.columns[k - 1], 0, k));
        law_dot_scaled(phi, p.columns[k - 1], q.columns[k - 1], q.qt_b, 0, k);
        law_dot_scaled(phi, p.qt_b, q.qt_b, p.columns[k - 1], 0, k);
        let sum = dot_spec(p.columns[k - 1], p.qt_b, 0, k);
        assert(dot_spec(q.columns[k - 1], q.qt_b, 0, k) == phi(phi(sum)));
        assert(phi(phi(sum)).magnitude() == phi(phi(sum.magnitude())));
        let scaled = sum.magnitude().over(p.column_norms[j]);
        assert(phi(phi(sum.magnitude())).over(q.column_norms[j]) == phi(scaled));
    }
}

/// A row of `R * P^T * x`, in another unit.
proof fn lemma_upper_row_scaled<F: Arithmetic>(
    phi: spec_fn(F) -> F,
    p: LeastSquares<F>,
    q: LeastSquares<F>,
    m: int,
    x: Seq<F>,
    i: int,
    k: int,
)
    requires
        scales(phi),
        problem_in_unit(phi, p, q, m),
        0 <= i,
        k <= p.columns.len(),
    ensures
        upper_row_sum(q, x, i, k) == phi(upper_row_sum(p, x, i, k)),
    decreases k,
{
    if k > i && k > 0 {
        lemma_upper_row_scaled(phi, p, q, m, x, i, k - 1);
        assert(in_unit(phi, p.columns[k - 1], q.columns[k - 1], 0, k));
        assert(q.columns[k - 1][i] == phi(p.columns[k - 1][i]));
    }
}

/// `a_x_norm_squared` has the square of the unit of the problem.
pub proof fn law_a_x_norm_squared_in_unit<F: Arithmetic>(
    phi: spec_fn(F) -> F,
    p: LeastSquares<F>,
    q: LeastSquares<F>,
    m: int,
    x: Seq<F>,
)
    requires
        scales(phi),
        problem_in_unit(phi, p, q, m),
    ensures
        norm_squared_spec(upper_product(q, x)) == phi(phi(norm_squared_spec(upper_product(p, x)))),
{
    let n = p.columns.len() as int;
    let (y, y2) = (upper_product(p, x), upper_product(q, x));
    assert forall|i: int| 0 <= i < n implies #[trigger] y2[i] == phi(y[i]) by {
        lemma_upper_row_scaled(phi, p, q, m, x, i, n);
    }
    lemma_whole_norm_scaled(phi, y, y2);
}

/// Whether an entry of a vector counts as zero where the norm does.
pub open spec fn definite<F: Arithmetic>() -> bool {
    forall|x: Seq<F>, j: int|
        0 <= j < x.len() && #[trigger] norm_spec(x, j, x.len() as int).vanishes()
            ==> x[j].vanishes()
}

/// Entry `i` of column `k` in another unit, when the first `j` columns are reduced. A Householder vector has
/// no unit, and does not matter where it starts with a zero.
spec fn entry_in_unit<F: Arithmetic>(
    phi: spec_fn(F) -> F,
    x: Seq<F>,
    y: Seq<F>,
    j: int,
    k: int,
    i: int,
) -> bool {
    if k < j && k <= i {
        y[i] == x[i] || (x[k].vanishes() && y[k].vanishes())
    } else {
        y[i] == phi(x[i])
    }
}

/// Whether the state `t` is `s` in another unit when the first `j` columns are reduced.
spec fn factors_in_unit<F: Arithmetic>(
    phi: spec_fn(F) -> F,
    s: Factorization<F>,
    t: Factorization<F>,
    m: int,
    j: int,
) -> bool {
    let n = s.columns.len() as int;
    &&& s.wf(m)
    &&& t.wf(m)
    &&& t.columns.len() == n
    &&& t.permutation == s.permutation
    &&& in_unit(phi, s.r_diag, t.r_diag, 0, n)
    &&& in_unit(phi, s.work, t.work, 0, n)
    &&& in_unit(phi, s.column_norms, t.column_norms, 0, n)
    &&& forall|k: int, i: int|
        0 <= k < n && 0 <= i < m ==> #[trigger] entry_in_unit(
            phi,
            s.columns[k],
            t.columns[k],
            j,
            k,
            i,
        )
}

/// A reflection in another unit.
proof fn lemma_reflect_scaled<F: Arithmetic>(
    phi: spec_fn(F) -> F,
    w: Seq<F>,
    w2: Seq<F>,
    j: int,
    y: Seq<F>,
    y2: Seq<F>,
    m: int,
)
    requires
        scales(phi),
        0 <= j < m,
        y.len() == m,
        y2.len() == m,
        forall|i: int| j <= i < m ==> #[trigger] w2[i] == w[i],
        in_unit(phi, y, y2, 0, m),
    ensures
        in_unit(phi, reflect_spec(w, j, y), reflect_spec(w2, j, y2), 0, m),
{
    law_dot_scaled(phi, y, y2, w, j, m);
    lemma_dot_congruent(y2, w, w2, j, m);
    assert(w2[j] == w[j]);
    let c = dot_spec(y, w, j, m).over(w[j]).negated();
    assert(dot_spec(y2, w2, j, m).over(w2[j]).negated() == phi(c));
    let (z, z2) = (reflect_spec(w, j, y), reflect_spec(w2, j, y2));
    assert forall|i: int| 0 <= i < m implies #[trigger] z2[i] == phi(z[i]) by {
        assert(y2[i] == phi(y[i]));
    }
}

/// The entry that is chosen is the same in another unit.
proof fn lemma_argmax_scaled<F: Arithmetic>(
    phi: spec_fn(F) -> F,
    v: Seq<F>,
    v2: Seq<F>,
    lo: int,
    hi: int,
)
    requires
        scales(phi),
        0 <= lo < hi <= v.len(),
        in_unit(phi, v, v2, 0, v.len() as int),
    ensures
        argmax_spec(v2, lo, hi) == argmax_spec(v, lo, hi),
        lo <= argmax_spec(v, lo, hi) < hi,
    decreases hi - lo,
{
    if hi > lo + 1 {
        lemma_argmax_scaled(phi, v, v2, lo, hi - 1);
        let best = argmax_spec(v, lo, hi - 1);
        assert(v2[best] == phi(v[best]) && v2[hi - 1] == phi(v[hi - 1]));
    }
}

/// A norm is brought up to date in another unit.
pub proof fn law_downdate_scaled<F: Arithmetic>(
    phi: spec_fn(F) -> F,
    column: Seq<F>,
    column2: Seq<F>,
    j: int,
    length: F,
    reference: F,
)
    requires
        scales(phi),
        0 <= j < column.len(),
        column2.len() == column.len(),
        in_unit(phi, column, column2, 0, column.len() as int),
    ensures
        ({
            let (rest, next) = downdate_spec(column, j, length, reference);
            downdate_spec(column2, j, phi(length), phi(reference)) == (phi(rest), phi(next))
        }),
{
    law_norm_scaled(phi, column, column2, j + 1, column.len() as int);
    assert(column2[j] == phi(column[j]));
    let share = column[j].over(length);
    assert(phi(column[j]).over(phi(length)) == share);
    let rest = length.times(F::one_spec().minus(share.times(share)).root());
    assert(phi(rest).over(phi(reference)) == rest.over(reference));
}

/// Pivoting in another unit.
proof fn lemma_pivot_scaled<F: Arithmetic>(
    phi: spec_fn(F) -> F,
    s: Factorization<F>,
    t: Factorization<F>,
    m: int,
    j: int,
)
    requires
        scales(phi),
        factors_in_unit(phi, s, t, m, j),
        0 <= j < s.columns.len(),
    ensures
        factors_in_unit(phi, pivot(s, j), pivot(t, j), m, j),
        pivot(s, j).columns.len() == s.columns.len(),
{
    let n = s.columns.len() as int;
    lemma_argmax_scaled(phi, s.r_diag, t.r_diag, j, n);
    let best = argmax_spec(s.r_diag, j, n);
    lemma_exchange_is_permutation(s.permutation, n, j, best);
    let (s2, t2) = (pivot(s, j), pivot(t, j));
    assert(s.columns[j].len() == m && s.columns[best].len() == m);
    assert(t.columns[j].len() == m && t.columns[best].len() == m);
    assert(t.r_diag[j] == phi(s.r_diag[j]) && t.work[j] == phi(s.work[j]));
    assert forall|k: int| 0 <= k < n implies (#[trigger] s2.columns[k]).len() == m by {
        assert(s.columns[k].len() == m);
    }
    assert forall|k: int| 0 <= k < n implies (#[trigger] t2.columns[k]).len() == m by {
        assert(t.columns[k].len() == m);
    }
    assert forall|k: int| 0 <= k < n implies #[trigger] t2.r_diag[k] == phi(s2.r_diag[k]) by {
        assert(t.r_diag[k] == phi(s.r_diag[k]));
    }
    assert forall|k: int| 0 <= k < n implies #[trigger] t2.work[k] == phi(s2.work[k]) by {
        assert(t.work[k] == phi(s.work[k]));
    }
    assert forall|k: int, i: int| 0 <= k < n && 0 <= i < m implies #[trigger] entry_in_unit(
        phi,
        s2.columns[k],
        t2.columns[k],
        j,
        k,
        i,
    ) by {
        let from = if k == j {
            best
        } else if k == best {
            j
        } else {
            k
        };
        assert(s2.columns[k] == s.columns[from]);
        assert(t2.columns[k] == t.columns[from]);
        assert(entry_in_unit(phi, s.columns[from], t.columns[from], j, from, i));
    }
}

/// Reducing a column in another unit.
proof fn lemma_reduce_scaled<F: Arithmetic>(
    phi: spec_fn(F) -> F,
    s: Factorization<F>,
    t: Factorization<F>,
    m: int,
    j: int,
)
    requires
        scales(phi),
        definite::<F>(),
        factors_in_unit(phi, s, t, m, j),
        0 <= j < s.columns.len(),
    ensures
        reduce(s, j).columns.len() == s.columns.len(),
        factors_in_unit(phi, reduce(s, j), reduce(t, j), m, j + 1),
{
    let n = s.columns.len() as int;
    let (s2, t2) = (reduce(s, j), reduce(t, j));
    lemma_reduce_wf(s, m, j);
    lemma_reduce_wf(t, m, j);
    let (x, x2) = (s.columns[j], t.columns[j]);
    assert(x.len() == m && x2.len() == m);
    assert(in_unit(phi, x, x2, 0, m)) by {
        assert forall|i: int| 0 <= i < m implies #[trigger] x2[i] == phi(x[i]) by {
            assert(entry_in_unit(phi, x, x2, j, j, i));
        }
    }
    law_norm_scaled(phi, x, x2, j, m);
    if !norm_spec(x, j, m).vanishes() {
        let (scale, scale2) = (signed_norm(x, j), signed_norm(x2, j));
        assert(x2[j] == phi(x[j]));
        assert(scale2 == phi(scale));
        let (w, w2) = (reflector(x, j, scale), reflector(x2, j, scale2));
        assert forall|i: int| j <= i < m implies #[trigger] w2[i] == w[i] by {
            assert(x2[i] == phi(x[i]));
            assert(phi(x[i]).over(phi(scale)) == x[i].over(scale));
        }
        assert(s2.columns[j] == w && t2.columns[j] == w2);
        assert forall|k: int| j < k < n implies in_unit(
            phi,
            s2.columns[k],
            #[trigger] t2.columns[k],
            0,
            m,
        ) && t2.r_diag[k] == phi(s2.r_diag[k]) && t2.work[k] == phi(s2.work[k]) by {
            let (y, y2) = (s.columns[k], t.columns[k]);
            assert(y.len() == m && y2.len() == m);
            assert forall|i: int| 0 <= i < m implies #[trigger] y2[i] == phi(y[i]) by {
                assert(entry_in_unit(phi, y, y2, j, k, i));
            }
            lemma_reflect_scaled(phi, w, w2, j, y, y2, m);
            assert(s2.columns[k] == reflect_spec(w, j, y));
            assert(t2.columns[k] == reflect_spec(w2, j, y2));
            assert(t.r_diag[k] == phi(s.r_diag[k]) && t.work[k] == phi(s.work[k]));
            law_downdate_scaled(
                phi,
                s2.columns[k],
                t2.columns[k],
                j,
                s.r_diag[k],
                s.work[k],
            );
        }
        assert forall|k: int, i: int| 0 <= k < n && 0 <= i < m implies #[trigger] entry_in_unit(
            phi,
            s2.columns[k],
            t2.columns[k],
            j + 1,
            k,
            i,
        ) by {
            if k < j {
                assert(t2.columns[k] == t.columns[k] && s2.columns[k] == s.columns[k]);
                assert(entry_in_unit(phi, s.columns[k], t.columns[k], j, k, i));
            } else if k == j {
                assert(x2[i] == phi(x[i]));
                if j <= i {
                    assert(w2[i] == w[i]);
                }
            } else {
                assert(in_unit(phi, s2.columns[k], t2.columns[k], 0, m));
            }
        }
        assert forall|k: int| 0 <= k < n implies #[trigger] t2.r_diag[k] == phi(s2.r_diag[k]) by {
            assert(t.r_diag[k] == phi(s.r_diag[k]));
            if k > j {
                assert(in_unit(phi, s2.columns[k], t2.columns[k], 0, m));
            }
        }
        assert forall|k: int| 0 <= k < n implies #[trigger] t2.work[k] == phi(s2.work[k]) by {
            assert(t.work[k] == phi(s.work[k]));
            if k > j {
                assert(in_unit(phi, s2.columns[k], t2.columns[k], 0, m));
            }
        }
    } else {
        assert(x[j].vanishes());
        assert(x2[j] == phi(x[j]));
        assert forall|k: int, i: int| 0 <= k < n && 0 <= i < m implies #[trigger] entry_in_unit(
            phi,
            s2.columns[k],
            t2.columns[k],
            j + 1,
            k,
            i,
        ) by {
            assert(entry_in_unit(phi, s.columns[k], t.columns[k], j, k, i));
        }
        assert forall|k: int| 0 <= k < n implies #[trigger] t2.r_diag[k] == phi(s2.r_diag[k]) by {
            assert(t.r_diag[k] == phi(s.r_diag[k]));
        }
    }
}

/// The factorization in another unit.
proof fn lemma_reduced_scaled<F: Arithmetic>(
    phi: spec_fn(F) -> F,
    a: Seq<Seq<F>>,
    a2: Seq<Seq<F>>,
    m: int,
    j: int,
)
    requires
        scales(phi),
        definite::<F>(),
        0 <= j <= a.len() <= m <= usize::MAX,
        a2.len() == a.len(),
        has_rows(a, m),
        has_rows(a2, m),
        forall|k: int| 0 <= k < a.len() ==> in_unit(phi, a[k], #[trigger] a2[k], 0, m),
    ensures
        reduced(a, j).columns.len() == a.len(),
        factors_in_unit(phi, reduced(a, j), reduced(a2, j), m, j),
    decreases j,
{
    if j > 0 {
        lemma_reduced_scaled(phi, a, a2, m, j - 1);
        let (s, t) = (reduced(a, j - 1), reduced(a2, j - 1));
        lemma_pivot_scaled(phi, s, t, m, j - 1);
        lemma_reduce_scaled(phi, pivot(s, j - 1), pivot(t, j - 1), m, j - 1);
    } else {
        let n = a.len() as int;
        let (s, t) = (reduced(a, 0), reduced(a2, 0));
        assert(is_permutation(s.permutation, n));
        assert(t.permutation =~= s.permutation);
        assert forall|k: int| 0 <= k < n implies #[trigger] t.r_diag[k] == phi(s.r_diag[k]) by {
            assert(a[k].len() == m && a2[k].len() == m);
            assert(in_unit(phi, a[k], a2[k], 0, m));
            lemma_whole_norm_scaled(phi, a[k], a2[k]);
        }
        assert forall|k: int, i: int| 0 <= k < n && 0 <= i < m implies #[trigger] entry_in_unit(
            phi,
            s.columns[k],
            t.columns[k],
            0,
            k,
            i,
        ) by {
            assert(in_unit(phi, a[k], a2[k], 0, m));
        }
        assert(t.work == t.r_diag && s.work == s.r_diag);
        assert(t.column_norms == t.r_diag && s.column_norms == s.r_diag);
    }
}

/// The reflections of a vector in another unit.
proof fn lemma_reflect_all_scaled<F: Arithmetic>(
    phi: spec_fn(F) -> F,
    s: Factorization<F>,
    t: Factorization<F>,
    m: int,
    b: Seq<F>,
    b2: Seq<F>,
    k: int,
)
    requires
        scales(phi),
        factors_in_unit(phi, s, t, m, s.columns.len() as int),
        0 <= k <= s.columns.len(),
        b.len() == m,
        b2.len() == m,
        in_unit(phi, b, b2, 0, m),
    ensures
        reflect_all(s.columns, b, k).len() == m,
        reflect_all(t.columns, b2, k).len() == m,
        in_unit(phi, reflect_all(s.columns, b, k), reflect_all(t.columns, b2, k), 0, m),
    decreases k,
{
    lemma_reflect_all_len(s.columns, b, k);
    lemma_reflect_all_len(t.columns, b2, k);
    if k > 0 {
        lemma_reflect_all_scaled(phi, s, t, m, b, b2, k - 1);
        let n = s.columns.len() as int;
        let (w, w2) = (s.columns[k - 1], t.columns[k - 1]);
        assert(entry_in_unit(phi, w, w2, n, k - 1, k - 1));
        if !w[k - 1].vanishes() {
            assert forall|i: int| k - 1 <= i < m implies #[trigger] w2[i] == w[i] by {
                assert(entry_in_unit(phi, w, w2, n, k - 1, i));
            }
            lemma_reflect_scaled(
                phi,
                w,
                w2,
                k - 1,
                reflect_all(s.columns, b, k - 1),
                reflect_all(t.columns, b2, k - 1),
                m,
            );
        }
    }
}

/// The least squares problem for `A` and `b` in another unit is the problem for `A` and `b`, in that unit.
/// This leaves out arithmetic in which the norm of a vector is zero that is not zero.
pub proof fn law_least_squares_scaled<F: Arithmetic>(
    phi: spec_fn(F) -> F,
    a: Seq<Seq<F>>,
    a2: Seq<Seq<F>>,
    b: Seq<F>,
    b2: Seq<F>,
    m: int,
)
    requires
        scales(phi),
        definite::<F>(),
        a.len() <= m <= usize::MAX,
        a2.len() == a.len(),
        has_rows(a, m),
        has_rows(a2, m),
        forall|k: int| 0 <= k < a.len() ==> in_unit(phi, a[k], #[trigger] a2[k], 0, m),
        b.len() == m,
        b2.len() == m,
        in_unit(phi, b, b2, 0, m),
    ensures
        problem_in_unit(
            phi,
            least_squares(factorization(a), b),
            least_squares(factorization(a2), b2),
            m,
        ),
{
    let n = a.len() as int;
    let (s, t) = (factorization(a), factorization(a2));
    lemma_reduced_scaled(phi, a, a2, m, n);
    lemma_reflect_all_scaled(phi, s, t, m, b, b2, n);
    let (p, q) = (least_squares(s, b), least_squares(t, b2));
    assert forall|k: int| 0 <= k < n implies (#[trigger] p.columns[k]).len() == m by {
        assert(s.columns[k].len() == m);
    }
    assert forall|k: int| 0 <= k < n implies (#[trigger] q.columns[k]).len() == m by {
        assert(t.columns[k].len() == m);
    }
    assert forall|k: int| 0 <= k < n implies in_unit(
        phi,
        p.columns[k],
        #[trigger] q.columns[k],
        0,
        k + 1,
    ) by {
        assert(s.columns[k].len() == m && t.columns[k].len() == m);
        assert forall|i: int| 0 <= i < k + 1 implies #[trigger] q.columns[k][i] == phi(
            p.columns[k][i],
        ) by {
            assert(entry_in_unit(phi, s.columns[k], t.columns[k], n, k, i));
            assert(t.r_diag[k] == phi(s.r_diag[k]));
        }
    }
}

} // verus!
