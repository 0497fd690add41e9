//! The laws of the pivoted QR factorization.
use vstd::prelude::*;
use crate::householder::{reflect_spec, reflector, signed_norm};
use crate::laws::reflections::{
    are_reflectors, is_reflector, lemma_reflect, lemma_reflection_fixes,
    lemma_reflection_involutive, lemma_reflection_isometric, lemma_reflector_reduces, q_times,
    q_transposed, reflection,
};
use crate::laws::sums::{lemma_sum_first, lemma_sum_split};
use crate::laws::vectors::{
    inner, lemma_inner_congruent, lemma_inner_nonnegative, lemma_norm, lemma_whole_norm,
    matrix_values, values,
};
use crate::matrix::has_rows;
use crate::permutation::{is_permutation, lemma_exchange_is_permutation};
use crate::qr::{downdate_spec, factorization, pivot, reduce, reduced, unreduced, Factorization};
use crate::scalar::{exact, Arithmetic};
use crate::vector::{argmax_spec, norm_spec};

verus! {

/// Column `k` of `R`, with zeros below it.
pub open spec fn r_column<F>(val: spec_fn(F) -> real, f: Factorization<F>, k: int) -> Seq<real> {
    Seq::new(
        f.columns[k].len(),
        |i: int|
            if i < k {
                val(f.columns[k][i])
            } else if i == k {
                val(f.r_diag[k])
            } else {
                0 as real
            },
    )
}

/// What has become of column `l` after `j` columns are reduced.
pub open spec fn present<F>(val: spec_fn(F) -> real, s: Factorization<F>, j: int, l: int) -> Seq<real> {
    if l < j {
        r_column(val, s, l)
    } else {
        values(val, s.columns[l])
    }
}

/// After `j` columns are reduced, the reflections take the columns of the input matrix to
/// the present ones, and no later column exceeds the diagonal entry of an earlier one.
spec fn sound<F: Arithmetic>(
    val: spec_fn(F) -> real,
    a: Seq<Seq<F>>,
    m: int,
    s: Factorization<F>,
    j: int,
) -> bool {
    &&& s.wf(m)
    &&& s.columns.len() == a.len()
    &&& are_reflectors(matrix_values(val, s.columns), m, j)
    &&& forall|k: int|
        0 <= k < a.len() ==> q_transposed(
            matrix_values(val, s.columns),
            values(val, a[s.permutation[k] as int]),
            j,
        ) == #[trigger] present(val, s, j, k)
    &&& forall|k: int, l: int|
        0 <= k < j && k <= l < a.len() ==> inner(
            present(val, s, j, l),
            #[trigger] present(val, s, j, l),
            k,
            m,
        ) <= val(#[trigger] s.r_diag[k]) * val(s.r_diag[k])
}

/// Whether `length` is the norm of the rows `j`, ... of `column`.
spec fn is_length(column: Seq<real>, j: int, length: real) -> bool {
    length >= 0 as real && length * length == inner(column, column, j, column.len() as int)
}

/// The reflections of columns that are the same are the same.
proof fn lemma_q_transposed_congruent(
    columns: Seq<Seq<real>>,
    others: Seq<Seq<real>>,
    x: Seq<real>,
    k: int,
)
    requires
        forall|j: int| 0 <= j < k ==> #[trigger] columns[j] == others[j],
    ensures
        q_transposed(columns, x, k) == q_transposed(others, x, k),
    decreases k,
{
    if k > 0 {
        lemma_q_transposed_congruent(columns, others, x, k - 1);
        assert(columns[k - 1] == others[k - 1]);
    }
}

/// No entry in the range exceeds the one that is chosen.
proof fn lemma_argmax<F: Arithmetic>(val: spec_fn(F) -> real, v: Seq<F>, lo: int, hi: int)
    requires
        exact(val),
        0 <= lo < hi <= v.len(),
    ensures
        lo <= argmax_spec(v, lo, hi) < hi,
        forall|i: int| lo <= i < hi ==> val(#[trigger] v[i]) <= val(v[argmax_spec(v, lo, hi)]),
    decreases hi - lo,
{
    if hi > lo + 1 {
        lemma_argmax(val, v, lo, hi - 1);
    }
}

/// The update of a norm is exact.
proof fn lemma_downdate<F: Arithmetic>(
    val: spec_fn(F) -> real,
    column: Seq<F>,
    j: int,
    length: F,
    reference: F,
)
    requires
        exact(val),
        0 <= j < column.len(),
        is_length(values(val, column), j, val(length)),
    ensures
        is_length(
            values(val, column),
            j + 1,
            val(downdate_spec(column, j, length, reference).0),
        ),
{
    let m = column.len() as int;
    let x = values(val, column);
    let a = val(length);
    let b = x[j];
    let rest = inner(x, x, j + 1, m);
    lemma_sum_first(|i: int| x[i] * x[i], j, m);
    lemma_inner_nonnegative(x, j + 1, m);
    lemma_norm(val, column, j + 1, m);
    assert(a * a == b * b + rest);
    assert(b * b >= 0 as real) by (nonlinear_arith);
    if length.vanishes() {
        assert(a * a == 0 as real) by (nonlinear_arith)
            requires
                a == 0 as real,
        ;
    } else {
        let share = column[j].over(length);
        if share.magnitude().below(F::one_spec()) {
            let t = val(share);
            let under = F::one_spec().minus(share.times(share));
            let root = val(under.root());
            let c = val(length.times(under.root()));
            assert(t == b / a);
            assert(t * t < 1 as real) by (nonlinear_arith)
                requires
                    -(1 as real) < t < 1 as real,
            ;
            assert(val(under) == 1 as real - t * t);
            assert(root >= 0 as real && root * root == 1 as real - t * t);
            assert(c == a * root);
            assert(c >= 0 as real && c * c == rest) by (nonlinear_arith)
                requires
                    a >= 0 as real,
                    a != 0 as real,
                    root >= 0 as real,
                    root * root == 1 as real - t * t,
                    c == a * root,
                    t == b / a,
                    a * a == b * b + rest,
            {
                assert(t * a == b);
                assert(c * c == (a * a) * (root * root));
                assert((a * a) * (t * t) == (t * a) * (t * a));
            }
        }
    }
}

/// The square of a vector over the rows `k`, ..., `m - 1` is made of the rows before `j` and the others.
proof fn lemma_square_split(x: Seq<real>, k: int, j: int, m: int)
    requires
        k <= j <= m,
    ensures
        inner(x, x, k, m) == inner(x, x, k, j) + inner(x, x, j, m),
{
    lemma_sum_split(|i: int| x[i] * x[i], k, j, m);
}

/// The first state is sound.
proof fn lemma_unreduced_sound<F: Arithmetic>(val: spec_fn(F) -> real, a: Seq<Seq<F>>, m: int)
    requires
        exact(val),
        a.len() <= m <= usize::MAX,
        has_rows(a, m),
    ensures
        sound(val, a, m, unreduced(a), 0),
        forall|k: int|
            0 <= k < a.len() ==> is_length(
                values(val, a[k]),
                0,
                val(#[trigger] unreduced(a).r_diag[k]),
            ),
{
    let s = unreduced(a);
    assert forall|k: int| 0 <= k < a.len() implies is_length(
        values(val, a[k]),
        0,
        val(#[trigger] s.r_diag[k]),
    ) by {
        lemma_whole_norm(val, a[k]);
    }
    assert(is_permutation(s.permutation, a.len() as int));
}

/// Pivoting keeps a state sound, and brings a column of the largest remaining norm to position `j`.
proof fn lemma_pivot_sound<F: Arithmetic>(
    val: spec_fn(F) -> real,
    a: Seq<Seq<F>>,
    m: int,
    s: Factorization<F>,
    j: int,
)
    requires
        exact(val),
        0 <= j < a.len(),
        sound(val, a, m, s, j),
        forall|k: int|
            j <= k < a.len() ==> is_length(
                values(val, s.columns[k]),
                j,
                val(#[trigger] s.r_diag[k]),
            ),
    ensures
        sound(val, a, m, pivot(s, j), j),
        forall|k: int|
            j < k < a.len() ==> is_length(
                values(val, pivot(s, j).columns[k]),
                j,
                val(#[trigger] pivot(s, j).r_diag[k]),
            ),
        forall|k: int|
            j <= k < a.len() ==> inner(
                values(val, #[trigger] pivot(s, j).columns[k]),
                values(val, pivot(s, j).columns[k]),
                j,
                m,
            ) <= inner(
                values(val, pivot(s, j).columns[j]),
                values(val, pivot(s, j).columns[j]),
                j,
                m,
            ),
{
    let n = a.len() as int;
    let best = argmax_spec(s.r_diag, j, n);
    lemma_argmax(val, s.r_diag, j, n);
    let t = pivot(s, j);
    lemma_exchange_is_permutation(s.permutation, n, j, best);
    let before = matrix_values(val, s.columns);
    let after = matrix_values(val, t.columns);
    // the position from which column k comes
    let from = |k: int|
        if k == j {
            best
        } else if k == best {
            j
        } else {
            k
        };
    assert forall|k: int| 0 <= k < n implies #[trigger] t.columns[k] == s.columns[from(k)]
        && t.permutation[k] == s.permutation[from(k)] by {}
    assert forall|k: int| 0 <= k < j implies #[trigger] after[k] == before[k] by {
        assert(t.columns[k] == s.columns[from(k)]);
    }
    assert(are_reflectors(after, m, j)) by {
        assert forall|k: int| 0 <= k < j implies (#[trigger] after[k]).len() == m && (after[k][k]
            == 0 as real || is_reflector(after[k], k)) by {
            assert(after[k] == before[k]);
        }
    }
    assert(has_rows(t.columns, m)) by {
        assert forall|k: int| 0 <= k < t.columns.len() implies (#[trigger] t.columns[k]).len()
            == m by {
            assert(t.columns[k] == s.columns[from(k)]);
        }
    }
    assert forall|k: int| 0 <= k < n implies #[trigger] present(val, t, j, k) == present(
        val,
        s,
        j,
        from(k),
    ) by {
        assert(t.columns[k] == s.columns[from(k)]);
        if k < j {
            assert(t.r_diag[k] == s.r_diag[k]);
            assert(present(val, t, j, k) =~= present(val, s, j, k));
        }
    }
    assert forall|k: int| 0 <= k < n implies q_transposed(
        after,
        values(val, a[t.permutation[k] as int]),
        j,
    ) == #[trigger] present(val, t, j, k) by {
        lemma_q_transposed_congruent(after, before, values(val, a[t.permutation[k] as int]), j);
        assert(t.columns[k] == s.columns[from(k)]);
        assert(present(val, s, j, from(k)) == present(val, t, j, k));
    }
    assert forall|k: int, l: int| 0 <= k < j && k <= l < n implies inner(
        present(val, t, j, l),
        #[trigger] present(val, t, j, l),
        k,
        m,
    ) <= val(#[trigger] t.r_diag[k]) * val(t.r_diag[k]) by {
        assert(t.r_diag[k] == s.r_diag[k]);
        assert(present(val, t, j, l) == present(val, s, j, from(l)));
    }
    assert forall|k: int| j < k < n implies is_length(
        values(val, t.columns[k]),
        j,
        val(#[trigger] t.r_diag[k]),
    ) by {
        assert(t.columns[k] == s.columns[from(k)]);
        assert(t.r_diag[k] == s.r_diag[from(k)]);
    }
    assert forall|k: int| j <= k < n implies inner(
        values(val, #[trigger] t.columns[k]),
        values(val, t.columns[k]),
        j,
        m,
    ) <= inner(values(val, t.columns[j]), values(val, t.columns[j]), j, m) by {
        assert(t.columns[k] == s.columns[from(k)]);
        assert(t.columns[j] == s.columns[best]);
        let p = val(s.r_diag[from(k)]);
        let q = val(s.r_diag[best]);
        assert(is_length(values(val, s.columns[from(k)]), j, p));
        assert(is_length(values(val, s.columns[best]), j, q));
        assert(p * p <= q * q) by (nonlinear_arith)
            requires
                0 as real <= p <= q,
        ;
    }
}

/// Reducing column `j` keeps a state sound.
proof fn lemma_reduce_sound<F: Arithmetic>(
    val: spec_fn(F) -> real,
    a: Seq<Seq<F>>,
    m: int,
    s: Factorization<F>,
    j: int,
)
    requires
        exact(val),
        0 <= j < a.len(),
        sound(val, a, m, s, j),
        forall|k: int|
            j < k < a.len() ==> is_length(
                values(val, s.columns[k]),
                j,
                val(#[trigger] s.r_diag[k]),
            ),
        forall|k: int|
            j <= k < a.len() ==> inner(
                values(val, #[trigger] s.columns[k]),
                values(val, s.columns[k]),
                j,
                m,
            ) <= inner(values(val, s.columns[j]), values(val, s.columns[j]), j, m),
    ensures
        sound(val, a, m, reduce(s, j), j + 1),
        forall|k: int|
            j < k < a.len() ==> is_length(
                values(val, reduce(s, j).columns[k]),
                j + 1,
                val(#[trigger] reduce(s, j).r_diag[k]),
            ),
{
    let n = a.len() as int;
    let t = reduce(s, j);
    let x = s.columns[j];
    let before = matrix_values(val, s.columns);
    let after = matrix_values(val, t.columns);
    assert(x.len() == m);
    lemma_norm(val, x, j, m);
    let u = values(val, x);
    let length = val(norm_spec(x, j, m));
    if norm_spec(x, j, m).vanishes() {
        lemma_reduce_zero_sound(val, a, m, s, j);
    } else {
        let scale = signed_norm(x, j);
        let wf = reflector(x, j, scale);
        let w = values(val, wf);
        lemma_reflector_reduces(val, x, j);
        assert(t.columns[j] == wf);
        assert forall|k: int| 0 <= k < j implies #[trigger] after[k] == before[k] by {
            assert(t.columns[k] == s.columns[k]);
        }
        assert(after[j] == w);
        assert(are_reflectors(after, m, j + 1)) by {
            assert forall|k: int| 0 <= k < j + 1 implies (#[trigger] after[k]).len() == m && (
            after[k][k] == 0 as real || is_reflector(after[k], k)) by {
                if k < j {
                    assert(after[k] == before[k]);
                }
            }
        }
        assert(has_rows(t.columns, m)) by {
            assert forall|k: int| 0 <= k < t.columns.len() implies (#[trigger] t.columns[k]).len()
                == m by {
                assert(s.columns[k].len() == m);
            }
        }
        // the reflection takes what the columns were to what they are
        assert forall|k: int| 0 <= k < n implies #[trigger] present(val, t, j + 1, k)
            == reflection(w, j, present(val, s, j, k)) && present(val, s, j, k).len() == m by {
            let p = present(val, s, j, k);
            assert(s.columns[k].len() == m);
            if k < j {
                lemma_reflection_fixes(w, j, p);
                assert(t.columns[k] == s.columns[k]);
                assert(present(val, t, j + 1, k) =~= p);
            } else if k == j {
                let y = reflection(w, j, u);
                assert(p == u);
                assert forall|i: int| 0 <= i < m implies #[trigger] r_column(val, t, j)[i]
                    == y[i] by {
                    if i < j {
                        assert(wf[i] == x[i]);
                    }
                }
                assert(r_column(val, t, j) =~= y);
            } else {
                lemma_reflect(val, wf, j, s.columns[k]);
                assert(t.columns[k] == reflect_spec(wf, j, s.columns[k]));
            }
        }
        assert forall|k: int| 0 <= k < n implies q_transposed(
            after,
            values(val, a[t.permutation[k] as int]),
            j + 1,
        ) == #[trigger] present(val, t, j + 1, k) by {
            let c = values(val, a[t.permutation[k] as int]);
            lemma_q_transposed_congruent(after, before, c, j);
            assert(q_transposed(before, c, j) == present(val, s, j, k));
        }
        assert forall|k: int, l: int| 0 <= k < j + 1 && k <= l < n implies inner(
            present(val, t, j + 1, l),
            #[trigger] present(val, t, j + 1, l),
            k,
            m,
        ) <= val(#[trigger] t.r_diag[k]) * val(t.r_diag[k]) by {
            let p = present(val, s, j, l);
            let q = present(val, t, j + 1, l);
            assert(q == reflection(w, j, p));
            lemma_reflection_isometric(w, j, p, p);
            lemma_square_split(p, k, j, m);
            lemma_square_split(q, k, j, m);
            lemma_inner_congruent(p, p, q, q, k, j);
            if k < j {
                assert(t.r_diag[k] == s.r_diag[k]);
            } else {
                assert(p == values(val, s.columns[l]));
                let d = val(scale);
                assert(d * d == length * length) by (nonlinear_arith)
                    requires
                        d == length || d == -length,
                ;
                assert((-d) * (-d) == d * d) by (nonlinear_arith);
            }
        }
        assert forall|k: int| j < k < n implies is_length(
            values(val, t.columns[k]),
            j + 1,
            val(#[trigger] t.r_diag[k]),
        ) by {
            let p = values(val, s.columns[k]);
            let q = values(val, t.columns[k]);
            assert(s.columns[k].len() == m);
            assert(present(val, t, j + 1, k) == reflection(w, j, present(val, s, j, k)));
            lemma_reflection_isometric(w, j, p, p);
            assert(is_length(p, j, val(s.r_diag[k])));
            assert(is_length(q, j, val(s.r_diag[k])));
            lemma_downdate(val, t.columns[k], j, s.r_diag[k], s.work[k]);
        }
    }
}

/// The case in which nothing is left of column `j`.
proof fn lemma_reduce_zero_sound<F: Arithmetic>(
    val: spec_fn(F) -> real,
    a: Seq<Seq<F>>,
    m: int,
    s: Factorization<F>,
    j: int,
)
    requires
        exact(val),
        0 <= j < a.len(),
        sound(val, a, m, s, j),
        norm_spec(s.columns[j], j, m).vanishes(),
        forall|k: int|
            j < k < a.len() ==> is_length(
                values(val, s.columns[k]),
                j,
                val(#[trigger] s.r_diag[k]),
            ),
        forall|k: int|
            j <= k < a.len() ==> inner(
                values(val, #[trigger] s.columns[k]),
                values(val, s.columns[k]),
                j,
                m,
            ) <= inner(values(val, s.columns[j]), values(val, s.columns[j]), j, m),
    ensures
        sound(val, a, m, reduce(s, j), j + 1),
        forall|k: int|
            j < k < a.len() ==> is_length(
                values(val, reduce(s, j).columns[k]),
                j + 1,
                val(#[trigger] reduce(s, j).r_diag[k]),
            ),
{
    let n = a.len() as int;
    let t = reduce(s, j);
    let x = s.columns[j];
    let columns = matrix_values(val, s.columns);
    assert(x.len() == m);
    lemma_norm(val, x, j, m);
    let u = values(val, x);
    let length = val(norm_spec(x, j, m));
    assert(length * length == 0 as real) by (nonlinear_arith)
        requires
            length == 0 as real,
    ;
    lemma_inner_nonnegative(u, j, m);
    assert(u[j] == 0 as real);
    assert(columns[j] == u);
    assert(t.columns == s.columns);
    assert(are_reflectors(columns, m, j + 1)) by {
        assert forall|k: int| 0 <= k < j + 1 implies (#[trigger] columns[k]).len() == m && (
        columns[k][k] == 0 as real || is_reflector(columns[k], k)) by {}
    }
    assert forall|k: int| 0 <= k < n implies #[trigger] present(val, t, j + 1, k) == present(
        val,
        s,
        j,
        k,
    ) by {
        if k < j {
            assert(t.r_diag[k] == s.r_diag[k]);
            assert(present(val, t, j + 1, k) =~= present(val, s, j, k));
        } else if k == j {
            assert forall|i: int| 0 <= i < m implies #[trigger] r_column(val, t, j)[i] == u[i] by {
                assert(i >= j ==> u[i] == 0 as real);
            }
            assert(present(val, t, j + 1, k) =~= u);
        }
    }
    assert forall|k: int| 0 <= k < n implies q_transposed(
        columns,
        values(val, a[t.permutation[k] as int]),
        j + 1,
    ) == #[trigger] present(val, t, j + 1, k) by {
        let c = values(val, a[t.permutation[k] as int]);
        assert(q_transposed(columns, c, j) == present(val, s, j, k));
    }
    assert forall|k: int, l: int| 0 <= k < j + 1 && k <= l < n implies inner(
        present(val, t, j + 1, l),
        #[trigger] present(val, t, j + 1, l),
        k,
        m,
    ) <= val(#[trigger] t.r_diag[k]) * val(t.r_diag[k]) by {
        assert(present(val, t, j + 1, l) == present(val, s, j, l));
        if k < j {
            assert(t.r_diag[k] == s.r_diag[k]);
        } else {
            let d = val(t.r_diag[j]);
            assert(d * d == 0 as real) by (nonlinear_arith)
                requires
                    d == 0 as real,
            ;
            assert(present(val, s, j, l) == values(val, s.columns[l]));
        }
    }
    assert forall|k: int| j < k < n implies is_length(
        values(val, t.columns[k]),
        j + 1,
        val(#[trigger] t.r_diag[k]),
    ) by {
        let p = values(val, s.columns[k]);
        assert(s.columns[k].len() == m);
        assert(t.r_diag[k] == s.r_diag[k]);
        assert(is_length(p, j, val(s.r_diag[k])));
        lemma_sum_first(|i: int| p[i] * p[i], j, m);
        lemma_inner_nonnegative(p, j, m);
        lemma_inner_nonnegative(p, j + 1, m);
        assert(p[j] == 0 as real);
        let b = p[j];
        assert(b * b == 0 as real) by (nonlinear_arith)
            requires
                b == 0 as real,
        ;
    }
}

/// Every state of the factorization is sound.
proof fn lemma_reduced_sound<F: Arithmetic>(
    val: spec_fn(F) -> real,
    a: Seq<Seq<F>>,
    m: int,
    j: int,
)
    requires
        exact(val),
        0 <= j <= a.len() <= m <= usize::MAX,
        has_rows(a, m),
    ensures
        sound(val, a, m, reduced(a, j), j),
        forall|k: int|
            j <= k < a.len() ==> is_length(
                values(val, reduced(a, j).columns[k]),
                j,
                val(#[trigger] reduced(a, j).r_diag[k]),
            ),
    decreases j,
{
    if j == 0 {
        lemma_unreduced_sound(val, a, m);
    } else {
        lemma_reduced_sound(val, a, m, j - 1);
        lemma_pivot_sound(val, a, m, reduced(a, j - 1), j - 1);
        lemma_reduce_sound(val, a, m, pivot(reduced(a, j - 1), j - 1), j - 1);
    }
}

/// The norms of the columns of the input matrix are kept.
pub proof fn lemma_column_norms_kept<F: Arithmetic>(a: Seq<Seq<F>>, j: int)
    ensures
        reduced(a, j).column_norms == unreduced(a).column_norms,
    decreases j,
{
    if j > 0 {
        lemma_column_norms_kept(a, j - 1);
    }
}

/// The factorization consists of reflections, so that `Q` is orthogonal, and its parts fit together.
proof fn lemma_factorization_sound<F: Arithmetic>(
    val: spec_fn(F) -> real,
    a: Seq<Seq<F>>,
    m: int,
)
    requires
        exact(val),
        a.len() <= m <= usize::MAX,
        has_rows(a, m),
    ensures
        sound(val, a, m, factorization(a), a.len() as int),
        factorization(a).wf(m),
        factorization(a).columns.len() == a.len(),
        are_reflectors(matrix_values(val, factorization(a).columns), m, a.len() as int),
{
    lemma_reduced_sound(val, a, m, a.len() as int);
}

/// Whether the rows `j`, ... of `w` hold the Householder vector for the diagonal entry `r` of `R`:
/// `|w|^2 = 2 * w[j]` with `w[j]` from one to two, or zeros where `r` is zero.
pub open spec fn is_householder(w: Seq<real>, j: int, r: real) -> bool {
    if r == 0 as real {
        forall|i: int| j <= i < w.len() ==> #[trigger] w[i] == 0 as real
    } else {
        &&& (1 as real) <= w[j]
        &&& w[j] <= 2 as real
        &&& inner(w, w, j, w.len() as int) == (2 as real) * w[j]
    }
}

/// Reducing column `j` leaves a Householder vector in its place.
proof fn lemma_reduce_householder<F: Arithmetic>(
    val: spec_fn(F) -> real,
    s: Factorization<F>,
    m: int,
    j: int,
)
    requires
        exact(val),
        s.wf(m),
        0 <= j < s.columns.len(),
    ensures
        is_householder(values(val, reduce(s, j).columns[j]), j, val(reduce(s, j).r_diag[j])),
{
    let x = s.columns[j];
    assert(x.len() == m);
    lemma_norm(val, x, j, m);
    let length = val(norm_spec(x, j, m));
    if length == 0 as real {
        let u = values(val, x);
        lemma_inner_nonnegative(u, j, m);
        assert(length * length == 0 as real) by (nonlinear_arith)
            requires
                length == 0 as real,
        ;
    } else {
        let w = values(val, reflector(x, j, signed_norm(x, j)));
        lemma_reflector_reduces(val, x, j);
        lemma_inner_nonnegative(w, j, m);
        let (e, q) = (w[j], inner(w, w, j, m));
        assert(w[j] * w[j] <= q);
        assert(e <= 2 as real) by (nonlinear_arith)
            requires
                e * e <= q,
                q == (2 as real) * e,
                e >= 1 as real,
        ;
    }
}

/// The first `j` columns hold Householder vectors after `j` columns are reduced.
proof fn lemma_reduced_householder<F: Arithmetic>(
    val: spec_fn(F) -> real,
    a: Seq<Seq<F>>,
    m: int,
    j: int,
    k: int,
)
    requires
        exact(val),
        0 <= k < j <= a.len() <= m <= usize::MAX,
        has_rows(a, m),
    ensures
        is_householder(
            values(val, reduced(a, j).columns[k]),
            k,
            val(reduced(a, j).r_diag[k]),
        ),
    decreases j,
{
    let s = reduced(a, j - 1);
    let t = pivot(s, j - 1);
    lemma_reduced_sound(val, a, m, j - 1);
    lemma_pivot_sound(val, a, m, s, j - 1);
    if k == j - 1 {
        lemma_reduce_householder(val, t, m, k);
    } else {
        lemma_reduced_householder(val, a, m, j - 1, k);
        lemma_argmax(val, s.r_diag, j - 1, a.len() as int);
        assert(t.columns[k] == s.columns[k]);
        assert(t.r_diag[k] == s.r_diag[k]);
        assert(reduce(t, j - 1).columns[k] == t.columns[k]);
        assert(reduce(t, j - 1).r_diag[k] == t.r_diag[k]);
    }
}

/// From the diagonal on column `j` of the factorization holds a Householder vector `w` with
/// `|w|^2 = 2 * w[j]`, where `w[j]` is from one to two. It holds zeros instead where the diagonal entry
/// of `R` is zero.
pub proof fn law_householder_vectors<F: Arithmetic>(
    val: spec_fn(F) -> real,
    a: Seq<Seq<F>>,
    m: int,
    j: int,
)
    requires
        exact(val),
        a.len() <= m <= usize::MAX,
        has_rows(a, m),
        0 <= j < a.len(),
    ensures
        is_householder(
            values(val, factorization(a).columns[j]),
            j,
            val(factorization(a).r_diag[j]),
        ),
{
    lemma_reduced_householder(val, a, m, a.len() as int, j);
}

/// The parts of the factorization fit together.
pub proof fn lemma_factorization_wf<F: Arithmetic>(val: spec_fn(F) -> real, a: Seq<Seq<F>>, m: int)
    requires
        exact(val),
        a.len() <= m <= usize::MAX,
        has_rows(a, m),
    ensures
        factorization(a).wf(m),
        factorization(a).columns.len() == a.len(),
{
    lemma_factorization_sound(val, a, m);
}

/// Reflections keep the number of rows.
pub proof fn lemma_q_len(columns: Seq<Seq<real>>, x: Seq<real>, k: int)
    ensures
        q_transposed(columns, x, k).len() == x.len(),
        q_times(columns, x, k).len() == x.len(),
    decreases k,
{
    if k > 0 {
        lemma_q_len(columns, x, k - 1);
        lemma_q_len(columns, reflection(columns[k - 1], k - 1, x), k - 1);
    }
}

/// `Q` and `Q^T` preserve dot products.
proof fn lemma_q_isometric(
    columns: Seq<Seq<real>>,
    x: Seq<real>,
    y: Seq<real>,
    m: int,
    k: int,
)
    requires
        are_reflectors(columns, m, k),
        k <= m,
        x.len() == m,
        y.len() == m,
    ensures
        inner(q_transposed(columns, x, k), q_transposed(columns, y, k), 0, m) == inner(x, y, 0, m),
        inner(q_times(columns, x, k), q_times(columns, y, k), 0, m) == inner(x, y, 0, m),
    decreases k,
{
    if k > 0 {
        let w = columns[k - 1];
        assert(w.len() == m);
        lemma_q_isometric(columns, x, y, m, k - 1);
        lemma_q_len(columns, x, k - 1);
        lemma_q_len(columns, y, k - 1);
        if w[k - 1] != 0 as real {
            lemma_reflection_isometric(
                w,
                k - 1,
                q_transposed(columns, x, k - 1),
                q_transposed(columns, y, k - 1),
            );
            lemma_reflection_isometric(w, k - 1, x, y);
            lemma_q_isometric(
                columns,
                reflection(w, k - 1, x),
                reflection(w, k - 1, y),
                m,
                k - 1,
            );
        }
    }
}

/// `Q` and `Q^T` are inverse to each other.
proof fn lemma_q_inverse(columns: Seq<Seq<real>>, x: Seq<real>, m: int, k: int)
    requires
        are_reflectors(columns, m, k),
        k <= m,
        x.len() == m,
    ensures
        q_times(columns, q_transposed(columns, x, k), k) == x,
        q_transposed(columns, q_times(columns, x, k), k) == x,
    decreases k,
{
    if k > 0 {
        let w = columns[k - 1];
        assert(w.len() == m);
        lemma_q_inverse(columns, x, m, k - 1);
        lemma_q_len(columns, x, k - 1);
        if w[k - 1] != 0 as real {
            lemma_reflection_involutive(w, k - 1, q_transposed(columns, x, k - 1));
            lemma_reflection_involutive(w, k - 1, x);
            lemma_q_inverse(columns, reflection(w, k - 1, x), m, k - 1);
        }
    }
}

/// The matrix `Q` is orthogonal: it preserves dot products, as `Q^T` does, and the two are
/// inverse to each other.
pub proof fn law_q_is_orthogonal<F: Arithmetic>(
    val: spec_fn(F) -> real,
    a: Seq<Seq<F>>,
    m: int,
    x: Seq<real>,
    y: Seq<real>,
)
    requires
        exact(val),
        a.len() <= m <= usize::MAX,
        has_rows(a, m),
        x.len() == m,
        y.len() == m,
    ensures
        ({
            let n = a.len() as int;
            let w = matrix_values(val, factorization(a).columns);
            &&& inner(q_times(w, x, n), q_times(w, y, n), 0, m) == inner(x, y, 0, m)
            &&& inner(q_transposed(w, x, n), q_transposed(w, y, n), 0, m) == inner(x, y, 0, m)
            &&& q_times(w, q_transposed(w, x, n), n) == x
            &&& q_transposed(w, q_times(w, x, n), n) == x
        }),
{
    lemma_factorization_sound(val, a, m);
    let w = matrix_values(val, factorization(a).columns);
    lemma_q_isometric(w, x, y, m, a.len() as int);
    lemma_q_inverse(w, x, m, a.len() as int);
}

/// `A * P = Q * R`: column `k` of `R`, with zeros below it, is taken by `Q` to the column of `A`
/// that the permutation puts in position `k`, and that column is taken back by `Q^T`.
pub proof fn law_a_p_is_q_r<F: Arithmetic>(
    val: spec_fn(F) -> real,
    a: Seq<Seq<F>>,
    m: int,
    k: int,
)
    requires
        exact(val),
        a.len() <= m <= usize::MAX,
        has_rows(a, m),
        0 <= k < a.len(),
    ensures
        ({
            let f = factorization(a);
            let n = a.len() as int;
            let w = matrix_values(val, f.columns);
            let column = values(val, a[f.permutation[k] as int]);
            &&& q_times(w, r_column(val, f, k), n) == column
            &&& q_transposed(w, column, n) == r_column(val, f, k)
        }),
{
    let f = factorization(a);
    let n = a.len() as int;
    lemma_factorization_sound(val, a, m);
    assert(f.permutation[k] < n);
    assert(a[f.permutation[k] as int].len() == m);
    let w = matrix_values(val, f.columns);
    let column = values(val, a[f.permutation[k] as int]);
    assert(q_transposed(w, column, n) == present(val, f, n, k));
    lemma_q_inverse(w, column, m, n);
}

/// `R^T * R = P^T * A^T * A * P`: the columns of `R` have the dot products of the columns of `A`
/// in their new order.
pub proof fn law_r_t_r<F: Arithmetic>(
    val: spec_fn(F) -> real,
    a: Seq<Seq<F>>,
    m: int,
    k: int,
    l: int,
)
    requires
        exact(val),
        a.len() <= m <= usize::MAX,
        has_rows(a, m),
        0 <= k < a.len(),
        0 <= l < a.len(),
    ensures
        ({
            let f = factorization(a);
            inner(r_column(val, f, k), r_column(val, f, l), 0, m) == inner(
                values(val, a[f.permutation[k] as int]),
                values(val, a[f.permutation[l] as int]),
                0,
                m,
            )
        }),
{
    let f = factorization(a);
    lemma_factorization_sound(val, a, m);
    assert(f.permutation[k] < a.len());
    assert(f.permutation[l] < a.len());
    law_a_p_is_q_r(val, a, m, k);
    law_a_p_is_q_r(val, a, m, l);
    law_q_is_orthogonal(
        val,
        a,
        m,
        values(val, a[f.permutation[k] as int]),
        values(val, a[f.permutation[l] as int]),
    );
}

/// The pivots come in the order of their size: what column `l` of `R` holds from row `k` on is
/// not longer than the diagonal entry in row `k`, for `k <= l`.
///
/// So the magnitudes of the diagonal entries do not increase, and from a zero on the diagonal
/// on all rows of `R` are zero.
pub proof fn law_pivots_decrease<F: Arithmetic>(
    val: spec_fn(F) -> real,
    a: Seq<Seq<F>>,
    m: int,
    k: int,
    l: int,
)
    requires
        exact(val),
        a.len() <= m <= usize::MAX,
        has_rows(a, m),
        0 <= k <= l < a.len(),
    ensures
        ({
            let f = factorization(a);
            let r = r_column(val, f, l);
            let pivot = val(f.r_diag[k]);
            &&& inner(r, r, k, m) <= pivot * pivot
            &&& val(f.r_diag[l].magnitude()) <= val(f.r_diag[k].magnitude())
            &&& pivot == 0 as real ==> forall|i: int| k <= i < m ==> #[trigger] r[i] == 0 as real
        }),
{
    let f = factorization(a);
    let n = a.len() as int;
    lemma_factorization_sound(val, a, m);
    let r = r_column(val, f, l);
    assert(f.columns[l].len() == m);
    assert(present(val, f, n, l) == r);
    let pivot = val(f.r_diag[k]);
    assert(inner(present(val, f, n, l), present(val, f, n, l), k, m) <= val(f.r_diag[k]) * val(
        f.r_diag[k],
    ));
    lemma_inner_nonnegative(r, k, m);
    let entry = r[l];
    assert(entry == val(f.r_diag[l]));
    assert(entry * entry <= pivot * pivot);
    let p = val(f.r_diag[k].magnitude());
    let q = val(f.r_diag[l].magnitude());
    assert(q <= p) by (nonlinear_arith)
        requires
            entry * entry <= pivot * pivot,
            p == if pivot < 0 as real {
                -pivot
            } else {
                pivot
            },
            q == if entry < 0 as real {
                -entry
            } else {
                entry
            },
    {
        assert(q * q <= p * p);
        if q > p {
            assert(q * q > p * p);
        }
    }
    if pivot == 0 as real {
        assert(pivot * pivot == 0 as real) by (nonlinear_arith)
            requires
                pivot == 0 as real,
        ;
    }
}

} // verus!
