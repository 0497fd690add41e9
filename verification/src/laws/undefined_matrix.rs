//! What becomes of entries of a matrix that are not numbers.
//!
//! None of these laws asks anything of the rounding.
use vstd::prelude::*;
use crate::cholesky::gather;
use crate::givens::{
    eliminate_entries, eliminate_entry, rotate_rows, rotate_spec, with_row, Elimination,
};
use crate::householder::{lemma_reflect_all_len, reflect_all, reflect_spec, signed_norm};
use crate::laws::accumulation::{lemma_argmax_range, lemma_reduce_wf};
use crate::laws::elimination::{fits, lemma_rotate_fits};
use crate::laws::factorization::lemma_column_norms_kept;
use crate::laws::solutions::start;
use crate::laws::sums::lemma_permutation_is_onto;
use crate::laws::triangular::{
    lemma_lower_solution_len, lemma_transposed_lower_solution_keeps, lemma_upper_solution_keeps,
};
use crate::laws::undefined::{
    law_dot_undefined, law_max_of_undefined, law_norm_squared_undefined,
    law_transposed_lower_solution_undefined, law_transposed_upper_solution_undefined,
    lemma_axpy_undefined, lemma_upper_undefined_kept, propagates,
};
use crate::lls::{
    diagonal_of, eliminated, elimination, max_scaled, scattered, solution_with_diagonal,
    solution_with_zero_diagonal, LeastSquares,
};
use crate::matrix::has_rows;
use crate::permutation::{is_permutation, lemma_exchange_is_permutation};
use crate::qr::{factorization, least_squares, pivot, reduce, reduced, Factorization};
use crate::scalar::Arithmetic;
use crate::triangular::{
    lower_solution, transposed_lower_solution, transposed_upper_solution, upper_solution,
};
use crate::vector::{argmax_spec, axpy_spec, dot_spec, norm_spec, norm_squared_spec};

verus! {

/// In the result of the substitution for `R * x = b` the entries are undefined whose diagonal entry is.
pub proof fn law_upper_solution_of_undefined<F: Arithmetic>(
    columns: Seq<Seq<F>>,
    b: Seq<F>,
    n: int,
    i: int,
)
    requires
        propagates::<F>(),
        0 <= i < n <= b.len(),
        columns[i][i].undefined(),
    ensures
        upper_solution(columns, b, n)[i].undefined(),
    decreases n,
{
    let d = columns[n - 1][n - 1];
    if d.vanishes() {
        law_upper_solution_of_undefined(columns, b.update(n - 1, F::zero_spec()), n - 1, i);
    } else {
        let x = b[n - 1].over(d);
        let c = b.update(n - 1, x);
        let rest = axpy_spec(c, x.negated(), columns[n - 1], 0, n - 1);
        if i == n - 1 {
            lemma_upper_undefined_kept(columns, rest, n - 1, i);
        } else {
            law_upper_solution_of_undefined(columns, rest, n - 1, i);
        }
    }
}

/// In the result of the substitution for `L^T * x = b` the entries are undefined whose diagonal entry is.
pub proof fn law_transposed_lower_solution_of_undefined<F: Arithmetic>(
    columns: Seq<Seq<F>>,
    diagonal: Seq<F>,
    b: Seq<F>,
    j: int,
    n: int,
    i: int,
)
    requires
        propagates::<F>(),
        0 <= j <= i < n <= b.len(),
        diagonal[i].undefined(),
    ensures
        transposed_lower_solution(columns, diagonal, b, j, n).len() == b.len(),
        transposed_lower_solution(columns, diagonal, b, j, n)[i].undefined(),
    decreases n - j,
{
    if j < i {
        law_transposed_lower_solution_of_undefined(columns, diagonal, b, j + 1, n, i);
    } else {
        lemma_transposed_lower_solution_keeps(columns, diagonal, b, j + 1, n);
    }
}

/// A row or a diagonal entry that is undefined makes the diagonal entry undefined when the row is rotated.
/// The other columns stay.
proof fn lemma_rotate_undefined<F: Arithmetic>(s: Elimination<F>, k: int, n: int, j: int)
    requires
        propagates::<F>(),
        fits(s, n),
        0 <= k < n,
        0 <= j < n,
    ensures
        ({
            let t = rotate_spec(s, k);
            &&& s.columns[j][j].undefined() || (j == k && s.row[k].undefined())
                ==> t.columns[j][j].undefined()
            &&& s.rhs[j].undefined() ==> t.rhs[j].undefined()
            &&& j <= k ==> t.row[j] == s.row[j]
        }),
{
    assert(n <= s.columns[j].len());
}

/// The same for all rows from row `lo` on.
proof fn lemma_rotate_rows_undefined<F: Arithmetic>(
    s: Elimination<F>,
    lo: int,
    hi: int,
    n: int,
    j: int,
)
    requires
        propagates::<F>(),
        fits(s, n),
        0 <= lo <= hi <= n,
        0 <= j < n,
    ensures
        fits(rotate_rows(s, lo, hi), n),
        ({
            let t = rotate_rows(s, lo, hi);
            &&& s.columns[j][j].undefined() || (j == lo && lo < hi && s.row[lo].undefined())
                ==> t.columns[j][j].undefined()
            &&& s.rhs[j].undefined() ==> t.rhs[j].undefined()
            &&& j <= lo ==> t.row[j] == s.row[j]
        }),
    decreases hi - lo,
{
    if lo < hi {
        lemma_rotate_rows_undefined(s, lo, hi - 1, n, j);
        let t = rotate_rows(s, lo, hi - 1);
        lemma_rotate_undefined(t, hi - 1, n, j);
        lemma_rotate_fits(t, hi - 1, n);
    }
}

/// What the elimination of the first `i` entries of a diagonal matrix does with undefined entries.
proof fn lemma_eliminate_undefined<F: Arithmetic>(
    s: Elimination<F>,
    diagonal: Seq<F>,
    original: Seq<F>,
    i: int,
    n: int,
    j: int,
)
    requires
        propagates::<F>(),
        fits(s, n),
        0 <= i <= n,
        0 <= j < n,
    ensures
        fits(eliminate_entries(s, diagonal, original, i), n),
        ({
            let t = eliminate_entries(s, diagonal, original, i);
            &&& i <= j && s.columns[j][j].undefined() ==> t.columns[j][j].undefined()
            &&& j < i && (s.columns[j][j].undefined() || diagonal[j].undefined())
                ==> t.row[j].undefined()
            &&& s.rhs[j].undefined() ==> t.rhs[j].undefined()
        }),
    decreases i,
{
    if i > 0 {
        lemma_eliminate_undefined(s, diagonal, original, i - 1, n, j);
        let t = eliminate_entries(s, diagonal, original, i - 1);
        let d = diagonal[i - 1];
        let r = with_row(t, i - 1, d);
        assert(fits(r, n)) by {
            assert forall|k: int| 0 <= k < n implies n <= (#[trigger] r.columns[k]).len() by {
                assert(n <= t.columns[k].len());
            }
        }
        lemma_rotate_rows_undefined(r, i - 1, n, n, j);
        let e = if d.vanishes() {
            t
        } else {
            rotate_rows(r, i - 1, n)
        };
        assert(fits(e, n));
        assert(n <= e.columns[i - 1].len());
        let v = eliminate_entry(t, i - 1, d, original[i - 1]);
        assert forall|k: int| 0 <= k < n implies n <= (#[trigger] v.columns[k]).len() by {
            assert(n <= e.columns[k].len());
        }
        if j < i - 1 {
            assert(r.row[j] == t.row[j]);
        }
    }
}

/// An undefined entry on the diagonal of `R`, or an undefined entry of the diagonal matrix, makes the entry
/// for that column in the result of `solve_with_diagonal` undefined, and the diagonal entry of `L` too. So
/// does an undefined entry of `Q^T * b`, unless the diagonal entry of `L` is zero.
pub proof fn law_solve_with_diagonal_undefined<F: Arithmetic>(
    p: LeastSquares<F>,
    m: int,
    diag: Seq<F>,
    x: Seq<F>,
    j: int,
)
    requires
        propagates::<F>(),
        p.wf(m),
        diag.len() == p.columns.len(),
        scattered(p.permutation, solution_with_diagonal(p, diag), x),
        0 <= j < p.columns.len(),
    ensures
        ({
            let i = p.permutation[j] as int;
            let l = eliminated(p, diag).l_diag[j];
            &&& p.columns[j][j].undefined() || diag[i].undefined() ==> l.undefined()
                && x[i].undefined()
            &&& p.qt_b[j].undefined() && !l.vanishes() ==> x[i].undefined()
        }),
{
    let n = p.columns.len() as int;
    let i = p.permutation[j] as int;
    let first = start(p);
    let e = elimination(p, diag, p.qt_b);
    assert(fits(first, n)) by {
        assert forall|k: int| 0 <= k < n implies n <= (#[trigger] first.columns[k]).len() by {
            assert(p.columns[k].len() == m);
        }
    }
    assert(p.columns[j].len() == m);
    assert(first.columns[j][j] == p.columns[j][j]);
    lemma_eliminate_undefined(
        first,
        gather(p.permutation, diag),
        diagonal_of(p.columns),
        n,
        n,
        j,
    );
    lemma_transposed_lower_solution_keeps(e.columns, e.row, e.rhs, 0, n);
    let y = solution_with_diagonal(p, diag);
    assert(x[p.permutation[j] as int] == y[j]);
    if e.row[j].undefined() {
        law_transposed_lower_solution_of_undefined(e.columns, e.row, e.rhs, 0, n, j);
    }
    if e.rhs[j].undefined() && !e.row[j].vanishes() {
        law_transposed_lower_solution_undefined(e.columns, e.row, e.rhs, 0, n, j);
    }
}

/// An undefined entry on the diagonal of `R` makes the entry for that column in the result of
/// `solve_with_zero_diagonal` undefined.
pub proof fn law_solve_with_undefined_r<F: Arithmetic>(p: LeastSquares<F>, m: int, x: Seq<F>, j: int)
    requires
        propagates::<F>(),
        p.wf(m),
        scattered(p.permutation, solution_with_zero_diagonal(p), x),
        0 <= j < p.columns.len(),
        p.columns[j][j].undefined(),
    ensures
        x[p.permutation[j] as int].undefined(),
{
    let n = p.columns.len() as int;
    law_upper_solution_of_undefined(p.columns, p.qt_b, n, j);
    lemma_upper_solution_keeps(p.columns, p.qt_b, n);
    assert(x[p.permutation[j] as int] == solution_with_zero_diagonal(p)[j]);
}

/// An undefined entry at the start of a Householder vector makes the entries of `Q^T * b` from that row on
/// undefined.
pub proof fn law_undefined_reflector<F: Arithmetic>(
    columns: Seq<Seq<F>>,
    b: Seq<F>,
    m: int,
    k: int,
    j: int,
    i: int,
)
    requires
        propagates::<F>(),
        b.len() == m,
        0 <= j < k <= m,
        columns[j][j].undefined(),
        j <= i < m,
    ensures
        reflect_all(columns, b, k).len() == m,
        reflect_all(columns, b, k)[i].undefined(),
    decreases k,
{
    lemma_reflect_all_len(columns, b, k);
    lemma_reflect_all_len(columns, b, k - 1);
    let y = reflect_all(columns, b, k - 1);
    let w = columns[k - 1];
    let c = dot_spec(y, w, k - 1, m).over(w[k - 1]).negated();
    if j < k - 1 {
        law_undefined_reflector(columns, b, m, k - 1, j, i);
    }
    if !w[k - 1].vanishes() {
        lemma_axpy_undefined(y, c, w, k - 1, m, i);
        assert(reflect_spec(w, k - 1, y)[i].undefined());
    }
}

/// Whether no comparison with an undefined operand holds, as with floating point types.
pub open spec fn unordered<F: Arithmetic>() -> bool {
    forall|a: F, b: F| a.undefined() || b.undefined() ==> !(#[trigger] a.below(b))
}

/// An undefined entry is taken for the largest only where it is the first, and then it always is.
proof fn lemma_argmax_undefined<F: Arithmetic>(v: Seq<F>, lo: int, hi: int)
    requires
        unordered::<F>(),
        0 <= lo < hi <= v.len(),
    ensures
        lo <= argmax_spec(v, lo, hi) < hi,
        v[lo].undefined() ==> argmax_spec(v, lo, hi) == lo,
        v[argmax_spec(v, lo, hi)].undefined() ==> v[lo].undefined(),
    decreases hi - lo,
{
    if hi > lo + 1 {
        lemma_argmax_undefined(v, lo, hi - 1);
    }
}

/// A column whose norm is undefined is chosen for position `j` only where it stands there, and then it
/// always is.
pub proof fn law_pivot_undefined<F: Arithmetic>(s: Factorization<F>, m: int, j: int)
    requires
        unordered::<F>(),
        s.wf(m),
        0 <= j < s.columns.len(),
    ensures
        s.r_diag[j].undefined() ==> pivot(s, j).permutation == s.permutation && pivot(s, j).columns
            == s.columns,
        !s.r_diag[j].undefined() ==> exists|k: int|
            j <= k < s.columns.len() && pivot(s, j).permutation[j] == s.permutation[k]
                && !(#[trigger] s.r_diag[k]).undefined(),
{
    let n = s.columns.len() as int;
    lemma_argmax_undefined(s.r_diag, j, n);
    let k = argmax_spec(s.r_diag, j, n);
    if s.r_diag[j].undefined() {
        assert(pivot(s, j).permutation =~= s.permutation);
        assert(pivot(s, j).columns =~= s.columns);
    } else {
        assert(!s.r_diag[k].undefined());
        assert(pivot(s, j).permutation[j] == s.permutation[k]);
    }
}

/// Whether a row of the vector is undefined.
pub open spec fn is_tainted<F: Arithmetic>(x: Seq<F>) -> bool {
    exists|i: int| 0 <= i < x.len() && (#[trigger] x[i]).undefined()
}

/// Whether an entry of column `k` of `R` is undefined when column `k` is reduced.
spec fn tainted_r<F: Arithmetic>(s: Factorization<F>, k: int) -> bool {
    s.r_diag[k].undefined() || exists|i: int|
        0 <= i < k && (#[trigger] s.columns[k][i]).undefined()
}

/// Whether all columns of `A` with an undefined entry have one in `R`, as far as they are reduced.
spec fn tainted<F: Arithmetic>(a: Seq<Seq<F>>, s: Factorization<F>, j: int) -> bool {
    forall|k: int|
        0 <= k < a.len() && is_tainted(a[#[trigger] s.permutation[k] as int]) ==> if k < j {
            tainted_r(s, k)
        } else {
            is_tainted(s.columns[k])
        }
}

/// Pivoting keeps undefined entries.
proof fn lemma_pivot_tainted<F: Arithmetic>(a: Seq<Seq<F>>, s: Factorization<F>, m: int, j: int)
    requires
        s.wf(m),
        s.columns.len() == a.len(),
        0 <= j < a.len(),
        tainted(a, s, j),
    ensures
        pivot(s, j).wf(m),
        pivot(s, j).columns.len() == a.len(),
        tainted(a, pivot(s, j), j),
{
    let n = a.len() as int;
    let best = argmax_spec(s.r_diag, j, n);
    lemma_argmax_range(s.r_diag, j, n);
    let t = pivot(s, j);
    lemma_exchange_is_permutation(s.permutation, n, j, best);
    assert(has_rows(t.columns, m)) by {
        assert forall|k: int| 0 <= k < n implies (#[trigger] t.columns[k]).len() == m by {
            assert(s.columns[j].len() == m);
            assert(s.columns[best].len() == m);
            assert(s.columns[k].len() == m);
        }
    }
    assert forall|k: int|
        0 <= k < a.len() && is_tainted(a[#[trigger] t.permutation[k] as int]) implies if k < j {
        tainted_r(t, k)
    } else {
        is_tainted(t.columns[k])
    } by {
        let from = if k == j {
            best
        } else if k == best {
            j
        } else {
            k
        };
        assert(t.permutation[k] == s.permutation[from]);
        assert(t.columns[k] == s.columns[from]);
        assert(is_tainted(a[s.permutation[from] as int]));
        if k < j {
            assert(tainted_r(s, k));
            assert(t.r_diag[k] == s.r_diag[k]);
        }
    }
}

/// Reducing a column keeps undefined entries.
proof fn lemma_reduce_tainted<F: Arithmetic>(a: Seq<Seq<F>>, s: Factorization<F>, m: int, j: int)
    requires
        propagates::<F>(),
        s.wf(m),
        s.columns.len() == a.len(),
        0 <= j < a.len(),
        tainted(a, s, j),
    ensures
        tainted(a, reduce(s, j), j + 1),
{
    let n = a.len() as int;
    let t = reduce(s, j);
    let x = s.columns[j];
    assert(x.len() == m);
    let none = norm_spec(x, j, m).vanishes();
    assert forall|k: int|
        0 <= k < a.len() && is_tainted(a[#[trigger] t.permutation[k] as int]) implies if k < j + 1 {
        tainted_r(t, k)
    } else {
        is_tainted(t.columns[k])
    } by {
        assert(t.permutation[k] == s.permutation[k]);
        assert(s.columns[k].len() == m);
        if k < j {
            assert(tainted_r(s, k));
            assert(t.r_diag[k] == s.r_diag[k]);
            assert(t.columns[k] == s.columns[k]);
        } else {
            let c = s.columns[k];
            assert(is_tainted(c));
            let i = choose|i: int| 0 <= i < c.len() && (#[trigger] c[i]).undefined();
            if k == j {
                if i < j {
                    assert(t.columns[j][i] == x[i]);
                } else {
                    law_dot_undefined(x, x, j, m, i);
                    assert(norm_spec(x, j, m).undefined());
                    assert(signed_norm(x, j).undefined());
                    assert(t.r_diag[j] == signed_norm(x, j).negated());
                }
            } else if none {
                assert(t.columns[k] == c);
            } else {
                let w = t.columns[j];
                assert(t.columns[k] == reflect_spec(w, j, c));
                lemma_axpy_undefined(c, dot_spec(c, w, j, m).over(w[j]).negated(), w, j, m, i);
                assert(t.columns[k][i].undefined());
            }
        }
    }
}

/// Undefined entries after `j` columns are reduced.
proof fn lemma_reduced_tainted<F: Arithmetic>(a: Seq<Seq<F>>, m: int, j: int)
    requires
        propagates::<F>(),
        0 <= j <= a.len() <= m <= usize::MAX,
        has_rows(a, m),
    ensures
        reduced(a, j).wf(m),
        reduced(a, j).columns.len() == a.len(),
        tainted(a, reduced(a, j), j),
    decreases j,
{
    if j > 0 {
        lemma_reduced_tainted(a, m, j - 1);
        let s = reduced(a, j - 1);
        lemma_pivot_tainted(a, s, m, j - 1);
        lemma_reduce_wf(pivot(s, j - 1), m, j - 1);
        lemma_reduce_tainted(a, pivot(s, j - 1), m, j - 1);
    } else {
        let s = reduced(a, 0);
        assert(is_permutation(s.permutation, a.len() as int));
    }
}

/// A column of `A` with an undefined entry makes an entry of its column of `R` and its norm undefined, and
/// `max_a_t_b_scaled` then returns `None`.
pub proof fn law_undefined_a<F: Arithmetic>(a: Seq<Seq<F>>, b: Seq<F>, m: int, c: int)
    requires
        propagates::<F>(),
        0 <= c < a.len() <= m <= usize::MAX,
        has_rows(a, m),
        b.len() == m,
        is_tainted(a[c]),
    ensures
        ({
            let p = least_squares(factorization(a), b);
            &&& exists|i: int, k: int|
                0 <= i <= k < a.len() && p.permutation[k] == c && (
                #[trigger] p.columns[k][i]).undefined()
            &&& p.column_norms[c].undefined()
            &&& max_scaled(p, a.len() as int) is None
        }),
{
    let n = a.len() as int;
    let f = factorization(a);
    let p = least_squares(f, b);
    assert(a[c].len() == m);
    lemma_reduced_tainted(a, m, n);
    lemma_column_norms_kept(a, n);
    lemma_permutation_is_onto(f.permutation, n, c);
    let k = choose|k: int| 0 <= k < n && #[trigger] f.permutation[k] == c;
    assert(tainted_r(f, k));
    assert(f.columns[k].len() == m);
    let i = if f.r_diag[k].undefined() {
        k
    } else {
        choose|i: int| 0 <= i < k && (#[trigger] f.columns[k][i]).undefined()
    };
    assert(p.columns[k][i].undefined());
    let r = choose|r: int| 0 <= r < m && (#[trigger] a[c][r]).undefined();
    law_norm_squared_undefined(a[c], r);
    assert(p.column_norms[c] == norm_squared_spec(a[c]).root());
    law_max_of_undefined(p, i, k);
}

/// In the result of the substitution for `L * x = b` the entries are undefined whose diagonal entry is.
pub proof fn law_lower_solution_of_undefined<F: Arithmetic>(
    columns: Seq<Seq<F>>,
    diagonal: Seq<F>,
    b: Seq<F>,
    j: int,
    n: int,
    i: int,
)
    requires
        propagates::<F>(),
        j <= n <= b.len(),
        0 <= i < j,
        diagonal[i].undefined(),
    ensures
        lower_solution(columns, diagonal, b, j, n).len() == b.len(),
        lower_solution(columns, diagonal, b, j, n)[i].undefined(),
    decreases j,
{
    if i < j - 1 {
        law_lower_solution_of_undefined(columns, diagonal, b, j - 1, n, i);
    } else {
        lemma_lower_solution_len(columns, diagonal, b, j - 1, n);
    }
}

/// In the result of the substitution for `R^T * x = b` the entries are undefined whose diagonal entry is,
/// where no entry on the diagonal before is zero.
pub proof fn law_transposed_upper_solution_of_undefined<F: Arithmetic>(
    columns: Seq<Seq<F>>,
    b: Seq<F>,
    i: int,
    n: int,
    j: int,
)
    requires
        propagates::<F>(),
        0 <= i <= j < n <= b.len(),
        columns[j][j].undefined(),
        forall|k: int| i <= k < n ==> !(#[trigger] columns[k])[k].vanishes(),
    ensures
        transposed_upper_solution(columns, b, i, n)[j].undefined(),
    decreases n - i,
{
    assert(!columns[i][i].vanishes());
    let x = b[i].minus(dot_spec(columns[i], b, 0, i)).over(columns[i][i]);
    let c = b.update(i, x);
    if i < j {
        law_transposed_upper_solution_of_undefined(columns, c, i + 1, n, j);
    } else {
        law_transposed_upper_solution_undefined(columns, c, i + 1, n, j);
    }
}

} // verus!
