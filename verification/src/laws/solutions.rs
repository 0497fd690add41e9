//! The laws of the solutions of the least squares problems.
use vstd::prelude::*;
use crate::cholesky::gather;
use crate::givens::{
    eliminate_entries, eliminate_entry, rotate_rows, rotate_spec, rotation_spec, with_row,
    Elimination,
};
use crate::laws::elimination::{
    fits, law_eliminate_entries, law_rotation, lemma_rotated_pair, lower_entry, lower_gram,
    lower_rhs,
};
use crate::laws::least_squares::{
    law_least_squares_poses, lemma_inner_product, lemma_permuted_product, permuted_columns, poses,
    upper_entry, upper_gram, upper_rhs,
};
use crate::laws::minimum::{
    law_normal_equations_minimize, law_normal_equations_minimize_residual, normal_equations,
    objective, residual_length,
};
use crate::laws::rank::{graded, law_least_squares_graded};
use crate::laws::sums::{
    lemma_permutation_is_onto, lemma_sum_congruent, lemma_sum_exchange, lemma_sum_first,
    lemma_sum_of_sums, lemma_sum_of_zeros, lemma_sum_one_changed, lemma_sum_scaled,
    lemma_sum_single, lemma_sum_split, sum,
};
use crate::laws::triangular::{
    law_transposed_lower_solution, law_upper_solution, lemma_transposed_lower_solution_keeps,
    lemma_upper_solution_keeps,
};
use crate::laws::vectors::{inner, lemma_inner_symmetric, matrix_values, product, values};
use crate::lls::{
    diagonal_of, eliminated, elimination, mirrored, scattered, solution_with_diagonal,
    solution_with_zero_diagonal, LeastSquares,
};
use crate::matrix::has_rows;
use crate::qr::{factorization, least_squares};
use crate::scalar::{exact, Arithmetic};
use crate::triangular::{transposed_lower_solution, upper_solution};
use crate::vector::axpy_spec;

verus! {

/// Whether two matrices agree above the diagonal, and in the rows after the first `n`.
spec fn agree_above<F>(columns: Seq<Seq<F>>, others: Seq<Seq<F>>) -> bool {
    let n = columns.len() as int;
    &&& others.len() == n
    &&& forall|k: int| 0 <= k < n ==> (#[trigger] columns[k]).len() == others[k].len()
    &&& forall|k: int, i: int|
        0 <= k < n && 0 <= i < columns[k].len() && (i < k || n <= i) ==> #[trigger] columns[k][i]
            == others[k][i]
}

/// The rotation of row `k` leaves the part of the matrix above the diagonal as it is.
proof fn lemma_rotate_keeps<F: Arithmetic>(s: Elimination<F>, k: int)
    requires
        0 <= k < s.columns.len(),
        s.row.len() == s.columns.len(),
        s.rhs.len() == s.columns.len(),
    ensures
        agree_above(s.columns, rotate_spec(s, k).columns),
        rotate_spec(s, k).row.len() == s.row.len(),
        rotate_spec(s, k).rhs.len() == s.rhs.len(),
        forall|q: int|
            0 <= q < s.columns.len() && q != k ==> #[trigger] rotate_spec(s, k).columns[q]
                == s.columns[q],
        forall|i: int| 0 <= i <= k ==> #[trigger] rotate_spec(s, k).row[i] == s.row[i],
{
}

/// The rotations of the rows `lo`, ..., `hi - 1` leave the part of the matrix above the diagonal as
/// it is, and the columns before `lo`.
proof fn lemma_rotate_rows_keeps<F: Arithmetic>(s: Elimination<F>, lo: int, hi: int)
    requires
        0 <= lo <= hi <= s.columns.len(),
        s.row.len() == s.columns.len(),
        s.rhs.len() == s.columns.len(),
    ensures
        agree_above(s.columns, rotate_rows(s, lo, hi).columns),
        rotate_rows(s, lo, hi).row.len() == s.row.len(),
        rotate_rows(s, lo, hi).rhs.len() == s.rhs.len(),
        forall|q: int|
            0 <= q < s.columns.len() && !(lo <= q < hi) ==> #[trigger] rotate_rows(
                s,
                lo,
                hi,
            ).columns[q] == s.columns[q],
        forall|i: int| 0 <= i < lo ==> #[trigger] rotate_rows(s, lo, hi).row[i] == s.row[i],
    decreases hi - lo,
{
    if hi > lo {
        lemma_rotate_rows_keeps(s, lo, hi - 1);
        let t = rotate_rows(s, lo, hi - 1);
        lemma_rotate_keeps(t, hi - 1);
        let u = rotate_rows(s, lo, hi);
        assert forall|k: int, i: int|
            0 <= k < s.columns.len() && 0 <= i < s.columns[k].len() && (i < k || s.columns.len()
                <= i) implies #[trigger] s.columns[k][i] == u.columns[k][i] by {
            assert(s.columns[k].len() == t.columns[k].len());
            assert(s.columns[k][i] == t.columns[k][i]);
            assert(t.columns[k][i] == u.columns[k][i]);
        }
        assert forall|k: int| 0 <= k < s.columns.len() implies (#[trigger] s.columns[k]).len()
            == u.columns[k].len() by {
            assert(t.columns[k].len() == u.columns[k].len());
        }
        assert forall|q: int| 0 <= q < s.columns.len() && !(lo <= q < hi) implies
            #[trigger] u.columns[q] == s.columns[q] by {
            assert(t.columns[q] == s.columns[q]);
        }
        assert forall|i: int| 0 <= i < lo implies #[trigger] u.row[i] == s.row[i] by {
            assert(t.row[i] == s.row[i]);
        }
    }
}

/// Eliminating the first `j` entries of a diagonal matrix leaves the part of the matrix above the
/// diagonal as it is, and puts the entries that it is given on the diagonal.
proof fn lemma_eliminate_entries_keeps<F: Arithmetic>(
    s: Elimination<F>,
    diagonal: Seq<F>,
    original: Seq<F>,
    j: int,
)
    requires
        0 <= j <= s.columns.len(),
        s.row.len() == s.columns.len(),
        s.rhs.len() == s.columns.len(),
        forall|k: int| 0 <= k < s.columns.len() ==> s.columns.len() <= (#[trigger] s.columns[k]).len(),
    ensures
        ({
            let t = eliminate_entries(s, diagonal, original, j);
            &&& agree_above(s.columns, t.columns)
            &&& t.row.len() == s.row.len()
            &&& t.rhs.len() == s.rhs.len()
            &&& forall|k: int| 0 <= k < j ==> (#[trigger] t.columns[k])[k] == original[k]
        }),
    decreases j,
{
    if j > 0 {
        lemma_eliminate_entries_keeps(s, diagonal, original, j - 1);
        let t = eliminate_entries(s, diagonal, original, j - 1);
        let d = diagonal[j - 1];
        let n = s.row.len() as int;
        let r = with_row(t, j - 1, d);
        let e = if d.vanishes() {
            t
        } else {
            rotate_rows(r, j - 1, n)
        };
        if !d.vanishes() {
            lemma_rotate_rows_keeps(r, j - 1, n);
        }
        let u = eliminate_entries(s, diagonal, original, j);
        assert(u == eliminate_entry(t, j - 1, d, original[j - 1]));
        assert forall|k: int| 0 <= k < n implies (#[trigger] s.columns[k]).len()
            == u.columns[k].len() by {
            assert(s.columns[k].len() == t.columns[k].len());
            assert(t.columns[k].len() == e.columns[k].len());
        }
        assert forall|k: int, i: int|
            0 <= k < n && 0 <= i < s.columns[k].len() && (i < k || n <= i) implies
            #[trigger] s.columns[k][i] == u.columns[k][i] by {
            assert(s.columns[k].len() == t.columns[k].len());
            assert(s.columns[k][i] == t.columns[k][i]);
            assert(t.columns[k][i] == e.columns[k][i]);
        }
        assert forall|k: int| 0 <= k < j implies (#[trigger] u.columns[k])[k] == original[k] by {
            if k < j - 1 {
                assert(e.columns[k] == t.columns[k]);
                assert(t.columns[k][k] == original[k]);
            } else {
                assert(s.columns[k].len() == t.columns[k].len());
                assert(t.columns[k].len() == e.columns[k].len());
            }
        }
    }
}

/// The elimination keeps the numbers of rows and columns.
pub proof fn lemma_elimination_len<F: Arithmetic>(
    p: LeastSquares<F>,
    diag: Seq<F>,
    rhs: Seq<F>,
    m: int,
)
    requires
        p.wf(m),
        rhs.len() == p.columns.len(),
    ensures
        ({
            let e = elimination(p, diag, rhs);
            &&& e.columns.len() == p.columns.len()
            &&& e.row.len() == p.columns.len()
            &&& e.rhs.len() == p.columns.len()
        }),
{
    let n = p.columns.len() as int;
    let s = Elimination { columns: mirrored(p.columns), row: p.l_diag, rhs, carry: F::zero_spec() };
    assert forall|k: int| 0 <= k < n implies n <= (#[trigger] s.columns[k]).len() by {
        assert(p.columns[k].len() == m);
    }
    lemma_eliminate_entries_keeps(s, gather(p.permutation, diag), diagonal_of(p.columns), n);
}

/// Solving with a diagonal matrix does not change the problem: `R`, `Q^T * b`, the permutation and
/// the column norms stay as they are, and so do the rows of the matrix that are not used.
pub proof fn law_solving_keeps_the_problem<F: Arithmetic>(
    p: LeastSquares<F>,
    diag: Seq<F>,
    m: int,
)
    requires
        p.wf(m),
        diag.len() == p.columns.len(),
    ensures
        ({
            let q = eliminated(p, diag);
            &&& q.wf(m)
            &&& q.columns.len() == p.columns.len()
            &&& q.qt_b == p.qt_b
            &&& q.permutation == p.permutation
            &&& q.column_norms == p.column_norms
            &&& forall|k: int, i: int|
                0 <= k < p.columns.len() && 0 <= i < m && (i <= k || p.columns.len() <= i)
                    ==> #[trigger] q.columns[k][i] == p.columns[k][i]
        }),
{
    let n = p.columns.len() as int;
    let s = Elimination {
        columns: mirrored(p.columns),
        row: p.l_diag,
        rhs: p.qt_b,
        carry: F::zero_spec(),
    };
    assert forall|k: int| 0 <= k < n implies n <= (#[trigger] s.columns[k]).len() by {
        assert(p.columns[k].len() == m);
    }
    lemma_eliminate_entries_keeps(s, gather(p.permutation, diag), diagonal_of(p.columns), n);
    let q = eliminated(p, diag);
    assert forall|k: int| 0 <= k < n implies (#[trigger] q.columns[k]).len() == m by {
        assert(p.columns[k].len() == m);
        assert(s.columns[k].len() == q.columns[k].len());
    }
    assert forall|k: int, i: int| 0 <= k < n && 0 <= i < m && (i <= k || n <= i) implies
        #[trigger] q.columns[k][i] == p.columns[k][i] by {
        assert(p.columns[k].len() == m);
        if i != k {
            assert(s.columns[k][i] == p.columns[k][i]);
        } else {
            assert(q.columns[k][k] == diagonal_of(p.columns)[k]);
        }
    }
}

/// What `row` holds before the elimination does not matter to it.
proof fn lemma_elimination_ignores_row<F: Arithmetic>(
    s: Elimination<F>,
    t: Elimination<F>,
    diagonal: Seq<F>,
    original: Seq<F>,
    j: int,
)
    requires
        0 <= j <= s.row.len(),
        s.row.len() == t.row.len(),
        s.columns == t.columns,
        s.columns.len() == s.row.len(),
        s.rhs == t.rhs,
        s.rhs.len() == s.columns.len(),
        s.carry == t.carry,
        forall|k: int| 0 <= k < s.columns.len() ==> s.columns.len() <= (#[trigger] s.columns[k]).len(),
    ensures
        ({
            let u = eliminate_entries(s, diagonal, original, j);
            let v = eliminate_entries(t, diagonal, original, j);
            &&& u.columns == v.columns
            &&& u.rhs == v.rhs
            &&& u.carry == v.carry
            &&& u.row.len() == v.row.len() == s.row.len()
            &&& forall|i: int| 0 <= i < j ==> #[trigger] u.row[i] == v.row[i]
        }),
    decreases j,
{
    if j > 0 {
        lemma_elimination_ignores_row(s, t, diagonal, original, j - 1);
        lemma_eliminate_entries_keeps(s, diagonal, original, j - 1);
        let u = eliminate_entries(s, diagonal, original, j - 1);
        let v = eliminate_entries(t, diagonal, original, j - 1);
        let d = diagonal[j - 1];
        if !d.vanishes() {
            assert(with_row(u, j - 1, d) =~= with_row(v, j - 1, d));
            lemma_rotate_rows_keeps(with_row(u, j - 1, d), j - 1, u.row.len() as int);
        }
    }
}

/// The problem can be solved for a sequence of diagonal matrices: after a solution for one, the
/// elimination of another gives what it would have given before.
pub proof fn law_solves_are_independent<F: Arithmetic>(
    p: LeastSquares<F>,
    first: Seq<F>,
    second: Seq<F>,
    rhs: Seq<F>,
    m: int,
)
    requires
        p.wf(m),
        first.len() == p.columns.len(),
        second.len() == p.columns.len(),
        rhs.len() == p.columns.len(),
    ensures
        elimination(eliminated(p, first), second, rhs) == elimination(p, second, rhs),
{
    let n = p.columns.len() as int;
    let q = eliminated(p, first);
    law_solving_keeps_the_problem(p, first, m);
    assert forall|k: int| 0 <= k < n implies p.columns[k].len() == m && (
    #[trigger] q.columns[k]).len() == m by {
        assert(p.columns[k].len() == m);
    }
    assert(mirrored(q.columns) =~= mirrored(p.columns)) by {
        assert forall|k: int| 0 <= k < n implies #[trigger] mirrored(q.columns)[k] =~= mirrored(
            p.columns,
        )[k] by {
            assert(q.columns[k].len() == m);
            assert forall|i: int| 0 <= i < m implies mirrored(q.columns)[k][i] == mirrored(
                p.columns,
            )[k][i] by {
                if k < i < n {
                    assert(q.columns[i].len() == m);
                    assert(q.columns[i][k] == p.columns[i][k]);
                } else {
                    assert(q.columns[k][i] == p.columns[k][i]);
                }
            }
        }
    }
    assert(diagonal_of(q.columns) =~= diagonal_of(p.columns)) by {
        assert forall|k: int| 0 <= k < n implies diagonal_of(q.columns)[k] == diagonal_of(
            p.columns,
        )[k] by {
            assert(q.columns[k][k] == p.columns[k][k]);
        }
    }
    let s = Elimination {
        columns: mirrored(q.columns),
        row: q.l_diag,
        rhs,
        carry: F::zero_spec(),
    };
    let t = Elimination {
        columns: mirrored(p.columns),
        row: p.l_diag,
        rhs,
        carry: F::zero_spec(),
    };
    assert forall|k: int| 0 <= k < n implies n <= (#[trigger] s.columns[k]).len() by {
        assert(q.columns[k].len() == m);
    }
    lemma_elimination_ignores_row(
        s,
        t,
        gather(p.permutation, second),
        diagonal_of(p.columns),
        n,
    );
    assert(elimination(q, second, rhs) =~= elimination(p, second, rhs));
}

/// After a solution with one diagonal matrix, `solve_with_diagonal` gives for another what it would
/// have given before, and so does `solve_with_zero_diagonal`.
pub proof fn law_solutions_are_independent<F: Arithmetic>(
    p: LeastSquares<F>,
    first: Seq<F>,
    second: Seq<F>,
    m: int,
)
    requires
        p.wf(m),
        first.len() == p.columns.len(),
        second.len() == p.columns.len(),
    ensures
        solution_with_diagonal(eliminated(p, first), second) == solution_with_diagonal(p, second),
        solution_with_zero_diagonal(eliminated(p, first)) == solution_with_zero_diagonal(p),
{
    law_solving_keeps_the_problem(p, first, m);
    law_solves_are_independent(p, first, second, p.qt_b, m);
    lemma_upper_solution_congruent(
        p.columns,
        eliminated(p, first).columns,
        p.qt_b,
        p.columns.len() as int,
        m,
    );
}

/// The substitution upwards does not read the part of the matrix below the diagonal.
proof fn lemma_upper_solution_congruent<F: Arithmetic>(
    columns: Seq<Seq<F>>,
    others: Seq<Seq<F>>,
    b: Seq<F>,
    n: int,
    m: int,
)
    requires
        0 <= n <= columns.len() <= m,
        forall|k: int, i: int|
            0 <= k < columns.len() && 0 <= i < m && i <= k ==> #[trigger] others[k][i]
                == columns[k][i],
    ensures
        upper_solution(others, b, n) == upper_solution(columns, b, n),
    decreases n,
{
    if n > 0 {
        let d = columns[n - 1][n - 1];
        assert(others[n - 1][n - 1] == d);
        if d.vanishes() {
            lemma_upper_solution_congruent(
                columns,
                others,
                b.update(n - 1, F::zero_spec()),
                n - 1,
                m,
            );
        } else {
            let x = b[n - 1].over(d);
            let c = b.update(n - 1, x);
            let rest = axpy_spec(c, x.negated(), columns[n - 1], 0, n - 1);
            assert(axpy_spec(c, x.negated(), others[n - 1], 0, n - 1) =~= rest);
            lemma_upper_solution_congruent(columns, others, rest, n - 1, m);
        }
    }
}

/// The elimination of zeros moves the diagonal to `row` and does nothing else.
proof fn lemma_eliminate_zeros<F: Arithmetic>(
    s: Elimination<F>,
    diagonal: Seq<F>,
    j: int,
    n: int,
)
    requires
        0 <= j <= n,
        fits(s, n),
        forall|k: int| 0 <= k < n ==> (#[trigger] diagonal[k]).vanishes(),
    ensures
        ({
            let t = eliminate_entries(s, diagonal, diagonal_of(s.columns), j);
            &&& t.columns == s.columns
            &&& t.rhs == s.rhs
            &&& t.row.len() == n
            &&& forall|k: int| 0 <= k < j ==> #[trigger] t.row[k] == s.columns[k][k]
        }),
    decreases j,
{
    if j > 0 {
        lemma_eliminate_zeros(s, diagonal, j - 1, n);
        let kept = diagonal_of(s.columns);
        let t = eliminate_entries(s, diagonal, kept, j - 1);
        let u = eliminate_entries(s, diagonal, kept, j);
        assert(diagonal[j - 1].vanishes());
        assert(u == eliminate_entry(t, j - 1, diagonal[j - 1], kept[j - 1]));
        assert(n <= s.columns[j - 1].len());
        assert(t.columns[j - 1].update(j - 1, kept[j - 1]) =~= t.columns[j - 1]);
        assert(u.columns =~= s.columns);
    }
}

/// The elimination of the zero matrix leaves `L = R^T` and the right hand side as it was.
pub proof fn law_zero_diagonal_leaves_r<F: Arithmetic>(
    p: LeastSquares<F>,
    diag: Seq<F>,
    rhs: Seq<F>,
    m: int,
)
    requires
        p.wf(m),
        diag.len() == p.columns.len(),
        rhs.len() == p.columns.len(),
        forall|c: int| 0 <= c < diag.len() ==> (#[trigger] diag[c]).vanishes(),
    ensures
        ({
            let e = elimination(p, diag, rhs);
            &&& e.rhs == rhs
            &&& e.row == diagonal_of(p.columns)
            &&& forall|k: int, i: int|
                0 <= k < i < p.columns.len() ==> #[trigger] e.columns[k][i] == p.columns[i][k]
        }),
{
    let n = p.columns.len() as int;
    let e = elimination(p, diag, rhs);
    let columns = mirrored(p.columns);
    let s = Elimination { rhs, ..start(p) };
    let d = gather(p.permutation, diag);
    assert forall|k: int| 0 <= k < n implies n <= (#[trigger] columns[k]).len() by {
        assert(p.columns[k].len() == m);
    }
    assert forall|k: int| 0 <= k < n implies (#[trigger] d[k]).vanishes() by {
        assert(p.permutation[k] < n);
        assert(diag[p.permutation[k] as int].vanishes());
    }
    assert forall|k: int| 0 <= k < n implies diagonal_of(columns)[k] == #[trigger] diagonal_of(
        p.columns,
    )[k] by {
        assert(p.columns[k].len() == m);
    }
    assert(diagonal_of(columns) =~= diagonal_of(p.columns));
    lemma_eliminate_zeros(s, d, n, n);
    assert(e.columns == columns);
    assert(e.row =~= diagonal_of(p.columns)) by {
        assert forall|k: int| 0 <= k < n implies #[trigger] e.row[k] == diagonal_of(
            p.columns,
        )[k] by {
            assert(diagonal_of(columns)[k] == diagonal_of(p.columns)[k]);
        }
    }
    assert forall|k: int, i: int| 0 <= k < i < n implies #[trigger] e.columns[k][i]
        == p.columns[i][k] by {
        assert(p.columns[k].len() == m);
    }
}

/// The square of the length of the right hand side.
spec fn rhs_length<F>(val: spec_fn(F) -> real, s: Elimination<F>, n: int) -> real {
    inner(values(val, s.rhs), values(val, s.rhs), 0, n)
}

/// Rotations keep the length of the right hand side with the carry.
proof fn lemma_rotate_rows_rhs<F: Arithmetic>(
    val: spec_fn(F) -> real,
    s: Elimination<F>,
    lo: int,
    hi: int,
    n: int,
)
    requires
        exact(val),
        fits(s, n),
        0 <= lo <= hi <= n,
    ensures
        ({
            let t = rotate_rows(s, lo, hi);
            rhs_length(val, t, n) + val(t.carry) * val(t.carry) == rhs_length(val, s, n) + val(
                s.carry,
            ) * val(s.carry)
        }),
    decreases hi - lo,
{
    if hi > lo {
        let k = hi - 1;
        lemma_rotate_rows_rhs(val, s, lo, k, n);
        lemma_rotate_rows_diagonal(val, s, lo, k, n, k);
        let t = rotate_rows(s, lo, k);
        let u = rotate_spec(t, k);
        if !t.row[k].vanishes() {
            law_rotation(val, t.columns[k][k], t.row[k]);
            let (sf, cf) = rotation_spec(t.columns[k][k], t.row[k]);
            let (sin, cos) = (val(sf), val(cf));
            let (g, h) = (val(t.rhs[k]), val(t.carry));
            lemma_rotated_pair(sin, cos, g, h, g, h);
            let (x, y) = (values(val, t.rhs), values(val, u.rhs));
            lemma_sum_one_changed(|i: int| x[i] * x[i], |i: int| y[i] * y[i], 0, n, k);
            assert(y[k] == cos * g + sin * h);
            assert(val(u.carry) == (-sin) * g + cos * h);
        }
    }
}

/// Eliminating entries does not make the right hand side longer.
proof fn lemma_eliminate_entries_rhs<F: Arithmetic>(
    val: spec_fn(F) -> real,
    s: Elimination<F>,
    diagonal: Seq<F>,
    original: Seq<F>,
    j: int,
    n: int,
)
    requires
        exact(val),
        fits(s, n),
        0 <= j <= n,
    ensures
        rhs_length(val, eliminate_entries(s, diagonal, original, j), n) <= rhs_length(val, s, n),
    decreases j,
{
    if j > 0 {
        lemma_eliminate_entries_rhs(val, s, diagonal, original, j - 1, n);
        lemma_eliminated_diagonal(val, s, diagonal, original, j - 1, n, j - 1);
        let t = eliminate_entries(s, diagonal, original, j - 1);
        let d = diagonal[j - 1];
        let r = with_row(t, j - 1, d);
        let u = eliminate_entries(s, diagonal, original, j);
        assert(u == eliminate_entry(t, j - 1, d, original[j - 1]));
        if !d.vanishes() {
            assert(fits(r, n));
            lemma_rotate_rows_rhs(val, r, j - 1, n, n);
            let c = val(rotate_rows(r, j - 1, n).carry);
            let z = val(r.carry);
            assert(c * c >= 0 as real) by (nonlinear_arith);
            assert(z * z == 0 as real) by (nonlinear_arith)
                requires
                    z == 0 as real,
            ;
        }
    }
}

/// The result of `eliminate_diag` is not longer than the right hand side that it was given.
pub proof fn law_rhs_does_not_grow<F: Arithmetic>(
    val: spec_fn(F) -> real,
    p: LeastSquares<F>,
    diag: Seq<F>,
    rhs: Seq<F>,
    m: int,
)
    requires
        exact(val),
        p.wf(m),
        diag.len() == p.columns.len(),
        rhs.len() == p.columns.len(),
    ensures
        ({
            let n = p.columns.len() as int;
            let (v, w) = (values(val, rhs), values(val, elimination(p, diag, rhs).rhs));
            inner(w, w, 0, n) <= inner(v, v, 0, n)
        }),
{
    let n = p.columns.len() as int;
    let s = Elimination { rhs, ..start(p) };
    assert(fits(s, n)) by {
        assert forall|k: int| 0 <= k < n implies n <= (#[trigger] s.columns[k]).len() by {
            assert(p.columns[k].len() == m);
        }
    }
    lemma_eliminate_entries_rhs(
        val,
        s,
        gather(p.permutation, diag),
        diagonal_of(p.columns),
        n,
        n,
    );
}

/// The first diagonal entry of `L` comes from the first diagonal entry of `R` and the entry of `D` for
/// that column: the square is the sum of the squares.
pub proof fn law_first_diagonal_entry<F: Arithmetic>(
    val: spec_fn(F) -> real,
    p: LeastSquares<F>,
    diag: Seq<F>,
    m: int,
)
    requires
        exact(val),
        p.wf(m),
        p.columns.len() > 0,
        diag.len() == p.columns.len(),
    ensures
        ({
            let (r, d, l) = (
                val(p.columns[0][0]),
                val(diag[p.permutation[0] as int]),
                val(eliminated(p, diag).l_diag[0]),
            );
            l * l == r * r + d * d
        }),
{
    let n = p.columns.len() as int;
    let first = start(p);
    let e = elimination(p, diag, p.qt_b);
    assert(fits(first, n)) by {
        assert forall|k: int| 0 <= k < n implies n <= (#[trigger] first.columns[k]).len() by {
            assert(p.columns[k].len() == m);
        }
    }
    law_eliminate_entries(
        val,
        first,
        gather(p.permutation, diag),
        diagonal_of(p.columns),
        n,
        n,
        0,
        0,
    );
    assert(p.columns[0].len() == m);
    assert forall|s: Elimination<F>, j: int| fits(s, n) implies #[trigger] lower_gram(
        val,
        s,
        j,
        0,
        0,
    ) == lower_entry(val, s, j, 0, 0) * lower_entry(val, s, j, 0, 0) by {
        let f = |k: int| lower_entry(val, s, j, 0, k) * lower_entry(val, s, j, 0, k);
        assert forall|k: int| 0 <= k < n && k != 0 implies #[trigger] f(k) == 0 as real by {
            assert((0 as real) * (0 as real) == 0 as real) by (nonlinear_arith);
        }
        lemma_sum_single(f, 0, n, 0);
    }
    assert(lower_gram(val, first, 0, 0, 0) == lower_entry(val, first, 0, 0, 0) * lower_entry(
        val,
        first,
        0,
        0,
        0,
    ));
    assert(lower_gram(val, e, n, 0, 0) == lower_entry(val, e, n, 0, 0) * lower_entry(
        val,
        e,
        n,
        0,
        0,
    ));
}

/// After a solution with a diagonal matrix, the problem is still that of `A` and `b`.
pub proof fn law_solving_keeps_poses<F: Arithmetic>(
    val: spec_fn(F) -> real,
    p: LeastSquares<F>,
    a: Seq<Seq<F>>,
    b: Seq<F>,
    m: int,
    diag: Seq<F>,
)
    requires
        poses(val, p, a, b, m),
        diag.len() == a.len(),
    ensures
        poses(val, eliminated(p, diag), a, b, m),
{
    let n = a.len() as int;
    let q = eliminated(p, diag);
    law_solving_keeps_the_problem(p, diag, m);
    assert forall|i: int, k: int| 0 <= i < n && 0 <= k < n implies #[trigger] upper_entry(
        val,
        q,
        i,
        k,
    ) == upper_entry(val, p, i, k) by {
        if i <= k {
            assert(q.columns[k][i] == p.columns[k][i]);
        }
    }
    assert forall|k: int, l: int| 0 <= k < n && 0 <= l < n implies #[trigger] upper_gram(
        val,
        q,
        k,
        l,
    ) == inner(
        values(val, a[q.permutation[k] as int]),
        values(val, a[q.permutation[l] as int]),
        0,
        m,
    ) by {
        assert(upper_gram(val, p, k, l) == upper_gram(val, q, k, l)) by {
            lemma_sum_congruent(
                |i: int| upper_entry(val, q, i, k) * upper_entry(val, q, i, l),
                |i: int| upper_entry(val, p, i, k) * upper_entry(val, p, i, l),
                0,
                n,
            );
        }
    }
    assert forall|k: int| 0 <= k < n implies #[trigger] upper_rhs(val, q, k) == inner(
        values(val, a[q.permutation[k] as int]),
        values(val, b),
        0,
        m,
    ) by {
        assert(upper_rhs(val, p, k) == upper_rhs(val, q, k)) by {
            lemma_sum_congruent(
                |i: int| upper_entry(val, q, i, k) * val(q.qt_b[i]),
                |i: int| upper_entry(val, p, i, k) * val(p.qt_b[i]),
                0,
                n,
            );
        }
    }
}

/// Entry `(i, k)` of the lower triangular matrix `L` with the given diagonal and the strictly
/// lower part of `columns`.
pub open spec fn cholesky_entry<F>(
    val: spec_fn(F) -> real,
    columns: Seq<Seq<F>>,
    l_diag: Seq<F>,
    i: int,
    k: int,
) -> real {
    if k > i {
        0 as real
    } else if k == i {
        val(l_diag[k])
    } else {
        val(columns[k][i])
    }
}

/// The state from which the elimination starts.
pub open spec fn start<F: Arithmetic>(p: LeastSquares<F>) -> Elimination<F> {
    Elimination {
        columns: mirrored(p.columns),
        row: p.l_diag,
        rhs: p.qt_b,
        carry: F::zero_spec(),
    }
}

/// What the elimination preserves, for the problem of `A` and `b`.
proof fn lemma_eliminated<F: Arithmetic>(
    val: spec_fn(F) -> real,
    p: LeastSquares<F>,
    a: Seq<Seq<F>>,
    b: Seq<F>,
    m: int,
    diag: Seq<F>,
    s: int,
    t: int,
)
    requires
        exact(val),
        poses(val, p, a, b, m),
        diag.len() == a.len(),
        0 <= s < a.len(),
        0 <= t < a.len(),
    ensures
        ({
            let n = a.len() as int;
            let e = elimination(p, diag, p.qt_b);
            let d = val(diag[p.permutation[s] as int]);
            &&& fits(e, n)
            &&& sum(
                |k: int|
                    cholesky_entry(val, e.columns, e.row, s, k) * cholesky_entry(
                        val,
                        e.columns,
                        e.row,
                        t,
                        k,
                    ),
                0,
                n,
            ) == inner(
                values(val, a[p.permutation[s] as int]),
                values(val, a[p.permutation[t] as int]),
                0,
                m,
            ) + if s == t {
                d * d
            } else {
                0 as real
            }
            &&& sum(
                |k: int| cholesky_entry(val, e.columns, e.row, s, k) * val(e.rhs[k]),
                0,
                n,
            ) == inner(values(val, a[p.permutation[s] as int]), values(val, b), 0, m)
        }),
{
    let n = a.len() as int;
    let first = start(p);
    let e = elimination(p, diag, p.qt_b);
    assert(fits(first, n)) by {
        assert forall|k: int| 0 <= k < n implies n <= (#[trigger] first.columns[k]).len() by {
            assert(p.columns[k].len() == m);
        }
    }
    law_eliminate_entries(
        val,
        first,
        gather(p.permutation, diag),
        diagonal_of(p.columns),
        n,
        n,
        s,
        t,
    );
    assert forall|i: int, k: int| 0 <= i < n && 0 <= k < n implies #[trigger] lower_entry(
        val,
        first,
        0,
        i,
        k,
    ) == upper_entry(val, p, k, i) by {
        assert(p.columns[k].len() == m);
        assert(p.columns[i].len() == m);
    }
    assert(lower_gram(val, first, 0, s, t) == upper_gram(val, p, s, t)) by {
        lemma_sum_congruent(
            |k: int| lower_entry(val, first, 0, s, k) * lower_entry(val, first, 0, t, k),
            |i: int| upper_entry(val, p, i, s) * upper_entry(val, p, i, t),
            0,
            n,
        );
    }
    assert(lower_rhs(val, first, 0, s) == upper_rhs(val, p, s)) by {
        lemma_sum_congruent(
            |k: int| lower_entry(val, first, 0, s, k) * val(first.rhs[k]),
            |i: int| upper_entry(val, p, i, s) * val(p.qt_b[i]),
            0,
            n,
        );
    }
    assert forall|i: int, k: int| 0 <= i < n && 0 <= k < n implies #[trigger] lower_entry(
        val,
        e,
        n,
        i,
        k,
    ) == cholesky_entry(val, e.columns, e.row, i, k) by {}
    lemma_sum_congruent(
        |k: int| lower_entry(val, e, n, s, k) * lower_entry(val, e, n, t, k),
        |k: int|
            cholesky_entry(val, e.columns, e.row, s, k) * cholesky_entry(
                val,
                e.columns,
                e.row,
                t,
                k,
            ),
        0,
        n,
    );
    lemma_sum_congruent(
        |k: int| lower_entry(val, e, n, s, k) * val(e.rhs[k]),
        |k: int| cholesky_entry(val, e.columns, e.row, s, k) * val(e.rhs[k]),
        0,
        n,
    );
}

/// `L * L^T = P^T * (A^T * A + D * D) * P` for the lower triangular matrix `L` that
/// `solve_with_diagonal` leaves.
pub proof fn law_cholesky_factor<F: Arithmetic>(
    val: spec_fn(F) -> real,
    p: LeastSquares<F>,
    a: Seq<Seq<F>>,
    b: Seq<F>,
    m: int,
    diag: Seq<F>,
    s: int,
    t: int,
)
    requires
        exact(val),
        poses(val, p, a, b, m),
        diag.len() == a.len(),
        0 <= s < a.len(),
        0 <= t < a.len(),
    ensures
        ({
            let q = eliminated(p, diag);
            let d = val(diag[p.permutation[s] as int]);
            sum(
                |k: int|
                    cholesky_entry(val, q.columns, q.l_diag, s, k) * cholesky_entry(
                        val,
                        q.columns,
                        q.l_diag,
                        t,
                        k,
                    ),
                0,
                a.len() as int,
            ) == inner(
                values(val, a[p.permutation[s] as int]),
                values(val, a[p.permutation[t] as int]),
                0,
                m,
            ) + if s == t {
                d * d
            } else {
                0 as real
            }
        }),
{
    lemma_eliminated(val, p, a, b, m, diag, s, t);
}

/// The substitution solves the rows of `L^T * y = rhs` without a zero on the diagonal of `L`.
pub proof fn lemma_solved_row<F: Arithmetic>(
    val: spec_fn(F) -> real,
    columns: Seq<Seq<F>>,
    l_diag: Seq<F>,
    rhs: Seq<F>,
    n: int,
    q: int,
)
    requires
        exact(val),
        columns.len() == n,
        l_diag.len() == n,
        rhs.len() == n,
        forall|k: int| 0 <= k < n ==> n <= (#[trigger] columns[k]).len(),
        0 <= q < n,
        val(l_diag[q]) != 0 as real,
    ensures
        ({
            let y = transposed_lower_solution(columns, l_diag, rhs, 0, n);
            sum(|k: int| cholesky_entry(val, columns, l_diag, k, q) * val(y[k]), 0, n) == val(
                rhs[q],
            )
        }),
{
    let y = transposed_lower_solution(columns, l_diag, rhs, 0, n);
    let f = |k: int| cholesky_entry(val, columns, l_diag, k, q) * val(y[k]);
    assert forall|k: int| 0 <= k < q implies #[trigger] f(k) == 0 as real by {
        let v = val(y[k]);
        assert((0 as real) * v == 0 as real) by (nonlinear_arith);
    }
    law_transposed_lower_solution(val, columns, l_diag, rhs, 0, n, q);
    lemma_sum_split(f, 0, q, n);
    lemma_sum_of_zeros(f, 0, q);
    lemma_sum_first(f, q, n);
    lemma_sum_congruent(f, |k: int| val(columns[q][k]) * val(y[k]), q + 1, n);
}

/// The sum over `q` of `l(t, q) * (the sum over k of l(k, q) * y[k])` is the sum over `k` of `y[k]` times
/// entry `(t, k)` of `L * L^T`.
proof fn lemma_gram_times(l: spec_fn(int, int) -> real, y: Seq<real>, n: int, t: int)
    ensures
        sum(|q: int| l(t, q) * sum(|k: int| l(k, q) * y[k], 0, n), 0, n) == sum(
            |k: int| y[k] * sum(|q: int| l(t, q) * l(k, q), 0, n),
            0,
            n,
        ),
{
    let f = |q: int, k: int| l(t, q) * (l(k, q) * y[k]);
    let outer = |q: int| l(t, q) * sum(|k: int| l(k, q) * y[k], 0, n);
    let rows = |q: int| sum(|k: int| f(q, k), 0, n);
    assert forall|q: int| 0 <= q < n implies #[trigger] outer(q) == rows(q) by {
        lemma_sum_scaled(l(t, q), |k: int| l(k, q) * y[k], |k: int| f(q, k), 0, n);
    }
    lemma_sum_congruent(outer, rows, 0, n);
    lemma_sum_exchange(f, 0, n, 0, n);
    let by_column = |k: int| sum(|q: int| f(q, k), 0, n);
    let goal = |k: int| y[k] * sum(|q: int| l(t, q) * l(k, q), 0, n);
    assert forall|k: int| 0 <= k < n implies #[trigger] by_column(k) == goal(k) by {
        let e = y[k];
        let g = |q: int| l(t, q) * l(k, q);
        let h = |q: int| f(q, k);
        assert forall|q: int| 0 <= q < n implies #[trigger] h(q) == e * g(q) by {
            let (u, v) = (l(t, q), l(k, q));
            assert(u * (v * e) == e * (u * v)) by (nonlinear_arith);
        }
        lemma_sum_scaled(e, g, h, 0, n);
    }
    lemma_sum_congruent(by_column, goal, 0, n);
}

/// The rotation of row `k` adds the square of the entry that is eliminated to that of the diagonal entry.
proof fn lemma_rotated_diagonal<F: Arithmetic>(
    val: spec_fn(F) -> real,
    s: Elimination<F>,
    k: int,
    n: int,
)
    requires
        exact(val),
        fits(s, n),
        0 <= k < n,
    ensures
        ({
            let t = rotate_spec(s, k);
            let (r, d, e) = (val(s.columns[k][k]), val(s.row[k]), val(t.columns[k][k]));
            e * e == r * r + d * d
        }),
{
    let t = rotate_spec(s, k);
    assert(n <= s.columns[k].len());
    let (r, d, e) = (val(s.columns[k][k]), val(s.row[k]), val(t.columns[k][k]));
    if s.row[k].vanishes() {
        assert(d * d == 0 as real) by (nonlinear_arith)
            requires
                d == 0 as real,
        ;
    } else {
        law_rotation(val, s.columns[k][k], s.row[k]);
        let (sf, cf) = rotation_spec(s.columns[k][k], s.row[k]);
        let (sin, cos) = (val(sf), val(cf));
        assert(e == cos * r + sin * d);
        lemma_rotated_pair(sin, cos, r, d, r, d);
        let z = (-sin) * r + cos * d;
        assert(z * z == 0 as real) by (nonlinear_arith)
            requires
                z == 0 as real,
        ;
    }
}

/// Whether the squares of the diagonal entries are not less than those before.
spec fn diagonal_grows<F>(
    val: spec_fn(F) -> real,
    s: Elimination<F>,
    t: Elimination<F>,
    q: int,
) -> bool {
    val(s.columns[q][q]) * val(s.columns[q][q]) <= val(t.columns[q][q]) * val(t.columns[q][q])
}

/// Rotations do not decrease the magnitudes of the diagonal entries, and the first of the rows
/// that are rotated takes up the entry that is eliminated.
proof fn lemma_rotate_rows_diagonal<F: Arithmetic>(
    val: spec_fn(F) -> real,
    s: Elimination<F>,
    lo: int,
    hi: int,
    n: int,
    q: int,
)
    requires
        exact(val),
        fits(s, n),
        0 <= lo <= hi <= n,
        0 <= q < n,
    ensures
        fits(rotate_rows(s, lo, hi), n),
        diagonal_grows(val, s, rotate_rows(s, lo, hi), q),
        lo < hi && q == lo ==> val(s.columns[lo][lo]) * val(s.columns[lo][lo]) + val(s.row[lo])
            * val(s.row[lo]) <= val(rotate_rows(s, lo, hi).columns[lo][lo]) * val(
            rotate_rows(s, lo, hi).columns[lo][lo],
        ),
    decreases hi - lo,
{
    if hi > lo {
        lemma_rotate_rows_diagonal(val, s, lo, hi - 1, n, q);
        let t = rotate_rows(s, lo, hi - 1);
        let u = rotate_spec(t, hi - 1);
        lemma_rotated_diagonal(val, t, hi - 1, n);
        lemma_rotate_keeps(t, hi - 1);
        assert(fits(u, n)) by {
            assert forall|k: int| 0 <= k < n implies n <= (#[trigger] u.columns[k]).len() by {
                assert(t.columns[k].len() == u.columns[k].len());
            }
        }
        let d = val(t.row[hi - 1]);
        assert(d * d >= 0 as real) by (nonlinear_arith);
        assert(q != hi - 1 ==> u.columns[q] == t.columns[q]);
    }
}

/// The square of a diagonal entry of `L` is not less than the sum of the squares of the diagonal
/// entry of `R` and of the entry of `D`.
proof fn lemma_eliminated_diagonal<F: Arithmetic>(
    val: spec_fn(F) -> real,
    s: Elimination<F>,
    diagonal: Seq<F>,
    original: Seq<F>,
    j: int,
    n: int,
    q: int,
)
    requires
        exact(val),
        fits(s, n),
        0 <= j <= n,
        0 <= q < n,
    ensures
        ({
            let t = eliminate_entries(s, diagonal, original, j);
            let (r, d) = (val(s.columns[q][q]), val(diagonal[q]));
            &&& fits(t, n)
            &&& if q < j {
                r * r + d * d <= val(t.row[q]) * val(t.row[q])
            } else {
                r * r <= val(t.columns[q][q]) * val(t.columns[q][q])
            }
        }),
    decreases j,
{
    if j > 0 {
        lemma_eliminated_diagonal(val, s, diagonal, original, j - 1, n, q);
        let t = eliminate_entries(s, diagonal, original, j - 1);
        let d = diagonal[j - 1];
        let r = with_row(t, j - 1, d);
        let e = if d.vanishes() {
            t
        } else {
            rotate_rows(r, j - 1, n)
        };
        let u = eliminate_entries(s, diagonal, original, j);
        assert(u == eliminate_entry(t, j - 1, d, original[j - 1]));
        if d.vanishes() {
            let v = val(d);
            assert(v * v == 0 as real) by (nonlinear_arith)
                requires
                    v == 0 as real,
            ;
        } else {
            assert(fits(r, n));
            lemma_rotate_rows_diagonal(val, r, j - 1, n, n, q);
            lemma_rotate_rows_keeps(r, j - 1, n);
        }
        assert(fits(u, n)) by {
            assert forall|k: int| 0 <= k < n implies n <= (#[trigger] u.columns[k]).len() by {
                assert(n <= e.columns[k].len());
            }
        }
    }
}

/// The square of a diagonal entry of `L` is not less than the sum of the squares of the diagonal entry
/// of `R` and of the entry of `D` for that column. So `L` has full rank where in no column both are
/// zero.
pub proof fn law_l_has_rank<F: Arithmetic>(
    val: spec_fn(F) -> real,
    p: LeastSquares<F>,
    m: int,
    diag: Seq<F>,
    j: int,
)
    requires
        exact(val),
        p.wf(m),
        diag.len() == p.columns.len(),
        0 <= j < p.columns.len(),
    ensures
        ({
            let (r, d, l) = (
                val(p.columns[j][j]),
                val(diag[p.permutation[j] as int]),
                val(eliminated(p, diag).l_diag[j]),
            );
            r * r + d * d <= l * l
        }),
{
    let n = p.columns.len() as int;
    let first = start(p);
    assert(fits(first, n)) by {
        assert forall|k: int| 0 <= k < n implies n <= (#[trigger] first.columns[k]).len() by {
            assert(p.columns[k].len() == m);
        }
    }
    assert(p.columns[j].len() == m);
    lemma_eliminated_diagonal(
        val,
        first,
        gather(p.permutation, diag),
        diagonal_of(p.columns),
        n,
        n,
        j,
    );
}

/// A rotation leaves a column as it is, or makes its diagonal entry other than zero.
proof fn lemma_rotate_rows_touches<F: Arithmetic>(
    val: spec_fn(F) -> real,
    s: Elimination<F>,
    lo: int,
    hi: int,
    n: int,
    q: int,
)
    requires
        exact(val),
        fits(s, n),
        0 <= lo <= hi <= n,
        0 <= q < n,
    ensures
        rotate_rows(s, lo, hi).columns[q] == s.columns[q] || val(
            rotate_rows(s, lo, hi).columns[q][q],
        ) != 0 as real,
    decreases hi - lo,
{
    if hi > lo {
        lemma_rotate_rows_touches(val, s, lo, hi - 1, n, q);
        lemma_rotate_rows_diagonal(val, s, lo, hi - 1, n, q);
        let t = rotate_rows(s, lo, hi - 1);
        let u = rotate_spec(t, hi - 1);
        lemma_rotate_keeps(t, hi - 1);
        lemma_rotated_diagonal(val, t, hi - 1, n);
        if q == hi - 1 {
            let (r, d, e) = (val(t.columns[q][q]), val(t.row[q]), val(u.columns[q][q]));
            if d == 0 as real {
                assert(u == t);
            } else {
                assert(e != 0 as real) by (nonlinear_arith)
                    requires
                        e * e == r * r + d * d,
                        d != 0 as real,
                {
                    assert(r * r >= 0 as real);
                    assert(d * d > 0 as real);
                }
            }
        } else {
            assert(u.columns[q] == t.columns[q]);
        }
    }
}

/// The elimination leaves a column as it is, or makes its diagonal entry other than zero.
proof fn lemma_eliminate_entries_touches<F: Arithmetic>(
    val: spec_fn(F) -> real,
    s: Elimination<F>,
    diagonal: Seq<F>,
    original: Seq<F>,
    j: int,
    n: int,
    q: int,
)
    requires
        exact(val),
        fits(s, n),
        0 <= j <= n,
        0 <= q < n,
    ensures
        ({
            let t = eliminate_entries(s, diagonal, original, j);
            if q < j {
                t.columns[q] == s.columns[q].update(q, original[q]) || val(t.row[q]) != 0 as real
            } else {
                t.columns[q] == s.columns[q] || val(t.columns[q][q]) != 0 as real
            }
        }),
    decreases j,
{
    if j > 0 {
        lemma_eliminate_entries_touches(val, s, diagonal, original, j - 1, n, q);
        lemma_eliminated_diagonal(val, s, diagonal, original, j - 1, n, q);
        let t = eliminate_entries(s, diagonal, original, j - 1);
        let d = diagonal[j - 1];
        let r = with_row(t, j - 1, d);
        let e = if d.vanishes() {
            t
        } else {
            rotate_rows(r, j - 1, n)
        };
        let u = eliminate_entries(s, diagonal, original, j);
        assert(u == eliminate_entry(t, j - 1, d, original[j - 1]));
        if !d.vanishes() {
            assert(fits(r, n));
            lemma_rotate_rows_touches(val, r, j - 1, n, n, q);
            lemma_rotate_rows_keeps(r, j - 1, n);
        }
        assert(e.columns[q] == t.columns[q] || val(e.columns[q][q]) != 0 as real);
    }
}

/// Where the diagonal entry of `L` is zero, the column of `L` is.
proof fn lemma_zero_column<F: Arithmetic>(
    val: spec_fn(F) -> real,
    p: LeastSquares<F>,
    m: int,
    diag: Seq<F>,
    i: int,
    q: int,
)
    requires
        exact(val),
        p.wf(m),
        graded(val, p),
        diag.len() == p.columns.len(),
        0 <= i < p.columns.len(),
        0 <= q < p.columns.len(),
        val(eliminated(p, diag).l_diag[q]) == 0 as real,
    ensures
        cholesky_entry(
            val,
            eliminated(p, diag).columns,
            eliminated(p, diag).l_diag,
            i,
            q,
        ) == 0 as real,
{
    if q < i {
        let n = p.columns.len() as int;
        let first = start(p);
        let e = elimination(p, diag, p.qt_b);
        law_l_has_rank(val, p, m, diag, q);
        let (r, d, l) = (
            val(p.columns[q][q]),
            val(diag[p.permutation[q] as int]),
            val(e.row[q]),
        );
        assert(r == 0 as real) by (nonlinear_arith)
            requires
                r * r + d * d <= l * l,
                l == 0 as real,
        {
            assert(l * l == 0 as real);
            assert(d * d >= 0 as real);
            assert(r != 0 as real ==> r * r > 0 as real);
        }
        assert(val(p.columns[i][q]) == 0 as real);
        assert(fits(first, n)) by {
            assert forall|k: int| 0 <= k < n implies n <= (#[trigger] first.columns[k]).len() by {
                assert(p.columns[k].len() == m);
            }
        }
        lemma_eliminate_entries_touches(
            val,
            first,
            gather(p.permutation, diag),
            diagonal_of(p.columns),
            n,
            n,
            q,
        );
        assert(p.columns[q].len() == m);
        assert(e.columns[q][i] == p.columns[i][q]);
    }
}

/// Row `t` of `L * L^T * y` is row `t` of `P^T * (A^T * A + D * D) * P * y`.
pub proof fn lemma_l_l_t_times<F: Arithmetic>(
    val: spec_fn(F) -> real,
    p: LeastSquares<F>,
    a: Seq<Seq<F>>,
    b: Seq<F>,
    m: int,
    diag: Seq<F>,
    y: Seq<real>,
    t: int,
)
    requires
        exact(val),
        poses(val, p, a, b, m),
        diag.len() == a.len(),
        0 <= t < a.len(),
    ensures
        ({
            let n = a.len() as int;
            let q = eliminated(p, diag);
            let l = |i: int, k: int| cholesky_entry(val, q.columns, q.l_diag, i, k);
            let ap = permuted_columns(val, a, p.permutation);
            let d = val(diag[p.permutation[t] as int]);
            sum(|q: int| l(t, q) * sum(|k: int| l(k, q) * y[k], 0, n), 0, n) == inner(
                ap[t],
                product(ap, y, m),
                0,
                m,
            ) + d * d * y[t]
        }),
{
    let n = a.len() as int;
    let e = elimination(p, diag, p.qt_b);
    let c = p.permutation[t] as int;
    let l = |i: int, k: int| cholesky_entry(val, e.columns, e.row, i, k);
    let column = values(val, a[c]);
    lemma_gram_times(l, y, n, t);
    let ap = permuted_columns(val, a, p.permutation);
    let d = val(diag[c]);
    let grams = |k: int| y[k] * sum(|q: int| l(t, q) * l(k, q), 0, n);
    let inners = |k: int| y[k] * inner(ap[k], column, 0, m);
    let squares = |k: int|
        if k == t {
            y[k] * (d * d)
        } else {
            0 as real
        };
    assert forall|k: int| 0 <= k < n implies #[trigger] grams(k) == inners(k) + squares(k) by {
        lemma_eliminated(val, p, a, b, m, diag, t, k);
        lemma_sum_congruent(
            |q: int| l(t, q) * l(k, q),
            |q: int|
                cholesky_entry(val, e.columns, e.row, t, q) * cholesky_entry(
                    val,
                    e.columns,
                    e.row,
                    k,
                    q,
                ),
            0,
            n,
        );
        lemma_inner_symmetric(ap[k], column, 0, m);
        let (u, v, w) = (
            y[k],
            inner(ap[k], column, 0, m),
            if k == t {
                d * d
            } else {
                0 as real
            },
        );
        assert(u * (v + w) == u * v + u * w) by (nonlinear_arith);
        assert(u * (0 as real) == 0 as real) by (nonlinear_arith);
    }
    lemma_sum_of_sums(inners, squares, grams, 0, n);
    lemma_sum_single(squares, 0, n, t);
    assert(sum(inners, 0, n) == inner(column, product(ap, y, m), 0, m)) by {
        lemma_inner_product(ap, y, column, m);
    }
    let u = y[t];
    assert(u * (d * d) == d * d * u) by (nonlinear_arith);
}

/// The row of `(A^T * A + D * D) * x = A^T * b` for the column of `A` in position `t`.
proof fn lemma_row_with_diagonal<F: Arithmetic>(
    val: spec_fn(F) -> real,
    p: LeastSquares<F>,
    a: Seq<Seq<F>>,
    b: Seq<F>,
    m: int,
    diag: Seq<F>,
    x: Seq<F>,
    t: int,
)
    requires
        exact(val),
        poses(val, p, a, b, m),
        graded(val, p),
        diag.len() == a.len(),
        0 <= t < a.len(),
        scattered(p.permutation, solution_with_diagonal(p, diag), x),
    ensures
        ({
            let c = p.permutation[t] as int;
            let ax = product(matrix_values(val, a), values(val, x), m);
            let d = val(diag[c]);
            inner(values(val, a[c]), ax, 0, m) + d * d * val(x[c]) == inner(
                values(val, a[c]),
                values(val, b),
                0,
                m,
            )
        }),
{
    let n = a.len() as int;
    let e = elimination(p, diag, p.qt_b);
    let c = p.permutation[t] as int;
    let l = |i: int, k: int| cholesky_entry(val, e.columns, e.row, i, k);
    let yf = solution_with_diagonal(p, diag);
    let y = values(val, yf);
    let column = values(val, a[c]);
    lemma_eliminated(val, p, a, b, m, diag, t, t);
    lemma_transposed_lower_solution_keeps(e.columns, e.row, e.rhs, 0, n);
    assert(p.permutation[t] < n);
    // L * L^T * y = L * rhs
    let applied = |q: int| l(t, q) * sum(|k: int| l(k, q) * y[k], 0, n);
    let full = |q: int| l(t, q) * val(e.rhs[q]);
    assert forall|q: int| 0 <= q < n implies #[trigger] applied(q) == full(q) by {
        if val(e.row[q]) == 0 as real {
            lemma_zero_column(val, p, m, diag, t, q);
            let (u, v, w) = (l(t, q), sum(|k: int| l(k, q) * y[k], 0, n), val(e.rhs[q]));
            assert(u * v == u * w) by (nonlinear_arith)
                requires
                    u == 0 as real,
            ;
        } else {
            lemma_solved_row(val, e.columns, e.row, e.rhs, n, q);
            lemma_sum_congruent(
                |k: int| l(k, q) * y[k],
                |k: int| cholesky_entry(val, e.columns, e.row, k, q) * val(yf[k]),
                0,
                n,
            );
        }
    }
    lemma_sum_congruent(applied, full, 0, n);
    assert(sum(full, 0, n) == inner(column, values(val, b), 0, m)) by {
        lemma_sum_congruent(
            full,
            |k: int| cholesky_entry(val, e.columns, e.row, t, k) * val(e.rhs[k]),
            0,
            n,
        );
    }
    lemma_l_l_t_times(val, p, a, b, m, diag, y, t);
    let ap = permuted_columns(val, a, p.permutation);
    let d = val(diag[c]);
    assert forall|k: int| 0 <= k < n implies values(val, x)[#[trigger] p.permutation[k] as int]
        == y[k] by {
        assert(p.permutation[k] < n);
        assert(x[p.permutation[k] as int] == yf[k]);
    }
    lemma_permuted_product(val, a, p.permutation, y, values(val, x), m);
    assert(values(val, x)[p.permutation[t] as int] == y[t]);
}

/// `solve_with_diagonal` solves `(A^T * A + D * D) * x = A^T * b`, whatever the rank of `A` is and
/// whichever entries of `D` are zero.
///
/// The problem that is made from a factorization is graded, and it stays so.
pub proof fn law_solve_with_diagonal<F: Arithmetic>(
    val: spec_fn(F) -> real,
    p: LeastSquares<F>,
    a: Seq<Seq<F>>,
    b: Seq<F>,
    m: int,
    diag: Seq<F>,
    x: Seq<F>,
)
    requires
        exact(val),
        poses(val, p, a, b, m),
        graded(val, p),
        diag.len() == a.len(),
        scattered(p.permutation, solution_with_diagonal(p, diag), x),
    ensures
        normal_equations(
            matrix_values(val, a),
            values(val, diag),
            values(val, b),
            m,
            values(val, x),
        ),
{
    let n = a.len() as int;
    let columns = matrix_values(val, a);
    let d = values(val, diag);
    let ax = product(columns, values(val, x), m);
    assert forall|c: int| 0 <= c < n implies inner(#[trigger] columns[c], ax, 0, m) + d[c] * d[c]
        * values(val, x)[c] == inner(columns[c], values(val, b), 0, m) by {
        lemma_permutation_is_onto(p.permutation, n, c);
        let t = choose|t: int| 0 <= t < n && #[trigger] p.permutation[t] == c;
        lemma_row_with_diagonal(val, p, a, b, m, diag, x, t);
    }
}

/// `solve_with_diagonal` minimizes `|A * x - b|^2 + |D * x|^2`.
pub proof fn law_solve_with_diagonal_minimizes<F: Arithmetic>(
    val: spec_fn(F) -> real,
    p: LeastSquares<F>,
    a: Seq<Seq<F>>,
    b: Seq<F>,
    m: int,
    diag: Seq<F>,
    x: Seq<F>,
    z: Seq<real>,
)
    requires
        exact(val),
        poses(val, p, a, b, m),
        graded(val, p),
        diag.len() == a.len(),
        scattered(p.permutation, solution_with_diagonal(p, diag), x),
    ensures
        objective(
            matrix_values(val, a),
            values(val, diag),
            values(val, b),
            m,
            values(val, x),
        ) <= objective(matrix_values(val, a), values(val, diag), values(val, b), m, z),
{
    law_solve_with_diagonal(val, p, a, b, m, diag, x);
    law_normal_equations_minimize(
        matrix_values(val, a),
        values(val, diag),
        values(val, b),
        m,
        values(val, x),
        z,
    );
}

/// The sum over `i` of `r(i, t) * (the sum over k of r(i, k) * y[k])` is the sum over `k` of `y[k]` times
/// entry `(t, k)` of `R^T * R`.
proof fn lemma_upper_gram_times(r: spec_fn(int, int) -> real, y: Seq<real>, n: int, t: int)
    ensures
        sum(|i: int| r(i, t) * sum(|k: int| r(i, k) * y[k], 0, n), 0, n) == sum(
            |k: int| y[k] * sum(|i: int| r(i, t) * r(i, k), 0, n),
            0,
            n,
        ),
{
    let l = |k: int, i: int| r(i, k);
    lemma_gram_times(l, y, n, t);
    let f = |q: int| l(t, q) * sum(|k: int| l(k, q) * y[k], 0, n);
    let g = |i: int| r(i, t) * sum(|k: int| r(i, k) * y[k], 0, n);
    assert forall|q: int| 0 <= q < n implies #[trigger] f(q) == g(q) by {
        lemma_sum_congruent(|k: int| l(k, q) * y[k], |k: int| r(q, k) * y[k], 0, n);
    }
    lemma_sum_congruent(f, g, 0, n);
    let f = |k: int| y[k] * sum(|q: int| l(t, q) * l(k, q), 0, n);
    let g = |k: int| y[k] * sum(|i: int| r(i, t) * r(i, k), 0, n);
    assert forall|k: int| 0 <= k < n implies #[trigger] f(k) == g(k) by {
        lemma_sum_congruent(|q: int| l(t, q) * l(k, q), |i: int| r(i, t) * r(i, k), 0, n);
    }
    lemma_sum_congruent(f, g, 0, n);
}

/// Row `t` of `R^T * R * y` is row `t` of `P^T * A^T * A * P * y`.
pub proof fn lemma_r_t_r_times<F>(
    val: spec_fn(F) -> real,
    p: LeastSquares<F>,
    a: Seq<Seq<F>>,
    b: Seq<F>,
    m: int,
    y: Seq<real>,
    t: int,
)
    requires
        poses(val, p, a, b, m),
        0 <= t < a.len(),
    ensures
        ({
            let n = a.len() as int;
            let r = |i: int, k: int| upper_entry(val, p, i, k);
            let ap = permuted_columns(val, a, p.permutation);
            sum(|i: int| r(i, t) * sum(|k: int| r(i, k) * y[k], 0, n), 0, n) == inner(
                ap[t],
                product(ap, y, m),
                0,
                m,
            )
        }),
{
    let n = a.len() as int;
    let ap = permuted_columns(val, a, p.permutation);
    let column = ap[t];
    let r = |i: int, k: int| upper_entry(val, p, i, k);
    lemma_upper_gram_times(r, y, n, t);
    let grams = |k: int| y[k] * sum(|i: int| r(i, t) * r(i, k), 0, n);
    let inners = |k: int| y[k] * inner(ap[k], column, 0, m);
    assert forall|k: int| 0 <= k < n implies #[trigger] grams(k) == inners(k) by {
        lemma_sum_congruent(
            |i: int| r(i, t) * r(i, k),
            |i: int| upper_entry(val, p, i, t) * upper_entry(val, p, i, k),
            0,
            n,
        );
        assert(upper_gram(val, p, t, k) == inner(column, ap[k], 0, m));
        lemma_inner_symmetric(ap[k], column, 0, m);
    }
    lemma_sum_congruent(grams, inners, 0, n);
    lemma_inner_product(ap, y, column, m);
}

/// `R^T * R * y = R^T * Q^T * b` for the result `y` of the substitution.
proof fn lemma_row_with_zero_diagonal<F: Arithmetic>(
    val: spec_fn(F) -> real,
    p: LeastSquares<F>,
    m: int,
    t: int,
)
    requires
        exact(val),
        p.wf(m),
        graded(val, p),
        0 <= t < p.columns.len(),
    ensures
        ({
            let n = p.columns.len() as int;
            let r = |i: int, k: int| upper_entry(val, p, i, k);
            let y = values(val, solution_with_zero_diagonal(p));
            sum(|i: int| r(i, t) * sum(|k: int| r(i, k) * y[k], 0, n), 0, n) == upper_rhs(
                val,
                p,
                t,
            )
        }),
{
    let n = p.columns.len() as int;
    let r = |i: int, k: int| upper_entry(val, p, i, k);
    let yf = solution_with_zero_diagonal(p);
    let y = values(val, yf);
    lemma_upper_solution_keeps(p.columns, p.qt_b, n);
    assert forall|k: int| 0 <= k < n implies n <= (#[trigger] p.columns[k]).len() by {
        assert(p.columns[k].len() == m);
    }
    let applied = |i: int| r(i, t) * sum(|k: int| r(i, k) * y[k], 0, n);
    let solved = |i: int| upper_entry(val, p, i, t) * val(p.qt_b[i]);
    assert forall|i: int| 0 <= i < n implies #[trigger] applied(i) == solved(i) by {
        let f = |k: int| r(i, k) * y[k];
        if val(p.columns[i][i]) == 0 as real {
            assert(i <= t ==> val(p.columns[t][i]) == 0 as real);
            let (u, v, w) = (r(i, t), sum(f, 0, n), val(p.qt_b[i]));
            assert(u * v == u * w) by (nonlinear_arith)
                requires
                    u == 0 as real,
            ;
        } else {
            law_upper_solution(val, p.columns, p.qt_b, n, i);
            lemma_sum_split(f, 0, i, n);
            assert forall|k: int| 0 <= k < i implies #[trigger] f(k) == 0 as real by {
                let u = y[k];
                assert((0 as real) * u == 0 as real) by (nonlinear_arith);
            }
            lemma_sum_of_zeros(f, 0, i);
            lemma_sum_congruent(f, |k: int| val(p.columns[k][i]) * val(yf[k]), i, n);
        }
    }
    lemma_sum_congruent(applied, solved, 0, n);
}

/// `solve_with_zero_diagonal` solves `A^T * A * x = A^T * b`, whatever the rank of `A` is.
///
/// The problem that is made from a factorization is graded, and it stays so.
pub proof fn law_solve_with_zero_diagonal<F: Arithmetic>(
    val: spec_fn(F) -> real,
    p: LeastSquares<F>,
    a: Seq<Seq<F>>,
    b: Seq<F>,
    m: int,
    x: Seq<F>,
)
    requires
        exact(val),
        poses(val, p, a, b, m),
        graded(val, p),
        scattered(p.permutation, solution_with_zero_diagonal(p), x),
    ensures
        normal_equations(
            matrix_values(val, a),
            Seq::new(a.len(), |c: int| 0 as real),
            values(val, b),
            m,
            values(val, x),
        ),
{
    let n = a.len() as int;
    let columns = matrix_values(val, a);
    let zeros = Seq::new(a.len(), |c: int| 0 as real);
    let ax = product(columns, values(val, x), m);
    let yf = solution_with_zero_diagonal(p);
    let y = values(val, yf);
    lemma_upper_solution_keeps(p.columns, p.qt_b, n);
    assert forall|k: int| 0 <= k < n implies values(val, x)[#[trigger] p.permutation[k] as int]
        == y[k] by {
        assert(p.permutation[k] < n);
        assert(x[p.permutation[k] as int] == yf[k]);
    }
    lemma_permuted_product(val, a, p.permutation, y, values(val, x), m);
    assert forall|c: int| 0 <= c < n implies inner(#[trigger] columns[c], ax, 0, m) + zeros[c]
        * zeros[c] * values(val, x)[c] == inner(columns[c], values(val, b), 0, m) by {
        lemma_permutation_is_onto(p.permutation, n, c);
        let t = choose|t: int| 0 <= t < n && #[trigger] p.permutation[t] == c;
        lemma_r_t_r_times(val, p, a, b, m, y, t);
        lemma_row_with_zero_diagonal(val, p, m, t);
        assert(upper_rhs(val, p, t) == inner(columns[c], values(val, b), 0, m));
        let (z, u) = (zeros[c], values(val, x)[c]);
        assert(z * z * u == 0 as real) by (nonlinear_arith)
            requires
                z == 0 as real,
        ;
    }
}

/// `solve_with_zero_diagonal` minimizes `|A * x - b|^2`.
pub proof fn law_solve_with_zero_diagonal_minimizes<F: Arithmetic>(
    val: spec_fn(F) -> real,
    p: LeastSquares<F>,
    a: Seq<Seq<F>>,
    b: Seq<F>,
    m: int,
    x: Seq<F>,
    z: Seq<real>,
)
    requires
        exact(val),
        poses(val, p, a, b, m),
        graded(val, p),
        scattered(p.permutation, solution_with_zero_diagonal(p), x),
    ensures
        residual_length(matrix_values(val, a), values(val, b), m, values(val, x))
            <= residual_length(matrix_values(val, a), values(val, b), m, z),
{
    law_solve_with_zero_diagonal(val, p, a, b, m, x);
    law_normal_equations_minimize_residual(
        matrix_values(val, a),
        Seq::new(a.len(), |c: int| 0 as real),
        values(val, b),
        m,
        values(val, x),
        z,
    );
}

/// Whatever the matrix `A` with at least as many rows as columns, the vector `b` and the diagonal
/// matrix `D` are: after the factorization of `A` the result of `solve_with_diagonal` solves
/// `(A^T * A + D * D) * x = A^T * b` and minimizes `|A * x - b|^2 + |D * x|^2`, and that of
/// `solve_with_zero_diagonal` solves `A^T * A * x = A^T * b` and minimizes `|A * x - b|^2`.
pub proof fn law_factorize_and_solve<F: Arithmetic>(
    val: spec_fn(F) -> real,
    a: Seq<Seq<F>>,
    b: Seq<F>,
    m: int,
    diag: Seq<F>,
    x: Seq<F>,
    y: Seq<F>,
    z: Seq<real>,
)
    requires
        exact(val),
        a.len() <= m <= usize::MAX,
        has_rows(a, m),
        b.len() == m,
        diag.len() == a.len(),
        ({
            let p = least_squares(factorization(a), b);
            &&& scattered(p.permutation, solution_with_diagonal(p, diag), x)
            &&& scattered(p.permutation, solution_with_zero_diagonal(p), y)
        }),
    ensures
        ({
            let (columns, d, w) = (matrix_values(val, a), values(val, diag), values(val, b));
            let zeros = Seq::new(a.len(), |c: int| 0 as real);
            &&& normal_equations(columns, d, w, m, values(val, x))
            &&& objective(columns, d, w, m, values(val, x)) <= objective(columns, d, w, m, z)
            &&& normal_equations(columns, zeros, w, m, values(val, y))
            &&& residual_length(columns, w, m, values(val, y)) <= residual_length(columns, w, m, z)
        }),
{
    let p = least_squares(factorization(a), b);
    law_least_squares_poses(val, a, b, m);
    law_least_squares_graded(val, a, b, m);
    law_solve_with_diagonal(val, p, a, b, m, diag, x);
    law_solve_with_diagonal_minimizes(val, p, a, b, m, diag, x, z);
    law_solve_with_zero_diagonal(val, p, a, b, m, y);
    law_solve_with_zero_diagonal_minimizes(val, p, a, b, m, y, z);
}

} // verus!
