//! The laws of the rank of a least squares problem.
use vstd::prelude::*;
use crate::laws::factorization::{law_pivots_decrease, lemma_factorization_wf, r_column};
use crate::laws::least_squares::{
    lemma_permuted_product, lemma_upper_length, permuted_columns, poses, upper_matrix,
};
use crate::laws::solutions::law_solving_keeps_the_problem;
use crate::laws::sums::{
    lemma_permutation_is_onto, lemma_sum_congruent, lemma_sum_first, lemma_sum_of_zeros,
    lemma_sum_split, sum,
};
use crate::laws::triangular::{law_upper_solution, lemma_upper_solution_keeps};
use crate::laws::vectors::{inner, lemma_inner_nonnegative, matrix_values, product};
use crate::lls::{diagonal_of, eliminated, LeastSquares};
use crate::matrix::has_rows;
use crate::qr::{factorization, least_squares};
use crate::scalar::{exact, Arithmetic};
use crate::triangular::upper_solution;

verus! {

/// Whether `v` is the zero vector.
pub open spec fn is_zero_vector(v: Seq<real>) -> bool {
    forall|i: int| 0 <= i < v.len() ==> #[trigger] v[i] == 0 as real
}

/// Whether the columns are linearly independent: only the zero vector is taken to zero.
pub open spec fn independent(columns: Seq<Seq<real>>, m: int) -> bool {
    forall|x: Seq<real>|
        x.len() == columns.len() && is_zero_vector(#[trigger] product(columns, x, m))
            ==> is_zero_vector(x)
}

/// Whether the columns of `A` on top of the diagonal matrix `D` are linearly independent: only
/// the zero vector is taken to zero by both.
pub open spec fn independent_with(columns: Seq<Seq<real>>, d: Seq<real>, m: int) -> bool {
    forall|x: Seq<real>|
        x.len() == columns.len() && is_zero_vector(#[trigger] product(columns, x, m)) && (forall|
            c: int,
        |
            0 <= c < x.len() ==> #[trigger] d[c] * x[c] == 0 as real) ==> is_zero_vector(x)
}

/// The columns of any `A` on top of a diagonal matrix without a zero are linearly independent.
pub proof fn law_regular_diagonal(columns: Seq<Seq<real>>, d: Seq<real>, m: int)
    requires
        forall|c: int| 0 <= c < columns.len() ==> #[trigger] d[c] != 0 as real,
    ensures
        independent_with(columns, d, m),
{
    assert forall|x: Seq<real>|
        x.len() == columns.len() && is_zero_vector(#[trigger] product(columns, x, m)) && (forall|
            c: int,
        |
            0 <= c < x.len() ==> #[trigger] d[c] * x[c] == 0 as real) implies is_zero_vector(x) by {
        assert forall|c: int| 0 <= c < x.len() implies #[trigger] x[c] == 0 as real by {
            let (u, v) = (d[c], x[c]);
            assert(d[c] * x[c] == 0 as real);
            assert(v == 0 as real) by (nonlinear_arith)
                requires
                    u * v == 0 as real,
                    u != 0 as real,
            ;
        }
    }
}

/// Where the columns of `A` are linearly independent, they are on top of any diagonal matrix.
pub proof fn law_independent_with(columns: Seq<Seq<real>>, d: Seq<real>, m: int)
    requires
        independent(columns, m),
    ensures
        independent_with(columns, d, m),
{
}

/// The dot product of the zero vector with itself is zero.
pub proof fn lemma_zero_length(v: Seq<real>)
    requires
        is_zero_vector(v),
    ensures
        inner(v, v, 0, v.len() as int) == 0 as real,
{
    let f = |i: int| v[i] * v[i];
    assert forall|i: int| 0 <= i < v.len() implies #[trigger] f(i) == 0 as real by {
        let u = v[i];
        assert(u * u == 0 as real) by (nonlinear_arith)
            requires
                u == 0 as real,
        ;
    }
    lemma_sum_of_zeros(f, 0, v.len() as int);
}

/// Row `i` of `R * y` starts with the term for column `i`.
proof fn lemma_upper_row<F>(
    val: spec_fn(F) -> real,
    p: LeastSquares<F>,
    y: Seq<real>,
    n: int,
    i: int,
)
    requires
        p.columns.len() == n,
        0 <= i < n,
    ensures
        product(upper_matrix(val, p), y, n)[i] == val(p.columns[i][i]) * y[i] + sum(
            |k: int| upper_matrix(val, p)[k][i] * y[k],
            i + 1,
            n,
        ),
{
    let rm = upper_matrix(val, p);
    let f = |k: int| rm[k][i] * y[k];
    assert(product(rm, y, n)[i] == sum(f, 0, n));
    lemma_sum_split(f, 0, i, n);
    lemma_sum_first(f, i, n);
    assert forall|k: int| 0 <= k < i implies #[trigger] f(k) == 0 as real by {
        let u = y[k];
        assert((0 as real) * u == 0 as real) by (nonlinear_arith);
    }
    lemma_sum_of_zeros(f, 0, i);
}

/// Where `R` has no zero on its diagonal, `R * y = 0` for `y = 0` only.
proof fn lemma_upper_injective<F: Arithmetic>(
    val: spec_fn(F) -> real,
    p: LeastSquares<F>,
    y: Seq<real>,
    n: int,
    i: int,
)
    requires
        exact(val),
        p.columns.len() == n,
        y.len() == n,
        forall|j: int| 0 <= j < n ==> !(#[trigger] p.columns[j])[j].vanishes(),
        is_zero_vector(product(upper_matrix(val, p), y, n)),
        0 <= i <= n,
    ensures
        forall|k: int| i <= k < n ==> #[trigger] y[k] == 0 as real,
    decreases n - i,
{
    if i < n {
        lemma_upper_injective(val, p, y, n, i + 1);
        lemma_upper_row(val, p, y, n, i);
        let rm = upper_matrix(val, p);
        let f = |k: int| rm[k][i] * y[k];
        assert forall|k: int| i + 1 <= k < n implies #[trigger] f(k) == 0 as real by {
            let (u, v) = (rm[k][i], y[k]);
            assert(v == 0 as real);
            assert(u * v == 0 as real) by (nonlinear_arith)
                requires
                    v == 0 as real,
            ;
        }
        lemma_sum_of_zeros(f, i + 1, n);
        assert(product(rm, y, n)[i] == 0 as real);
        let (d, v) = (val(p.columns[i][i]), y[i]);
        assert(!p.columns[i][i].vanishes());
        assert(v == 0 as real) by (nonlinear_arith)
            requires
                d * v == 0 as real,
                d != 0 as real,
        ;
    }
}

/// The index of the first zero among the entries `i`, `i + 1`, ... of `v`, or the
/// length of `v` where there is none.
spec fn first_zero<F: Arithmetic>(v: Seq<F>, i: int) -> int
    decreases v.len() - i,
{
    if i >= v.len() || v[i].vanishes() {
        i
    } else {
        first_zero(v, i + 1)
    }
}

/// The first zero is found.
proof fn lemma_first_zero<F: Arithmetic>(v: Seq<F>, i: int)
    requires
        0 <= i <= v.len(),
    ensures
        i <= first_zero(v, i) <= v.len(),
        forall|k: int| i <= k < first_zero(v, i) ==> !(#[trigger] v[k]).vanishes(),
        first_zero(v, i) < v.len() ==> v[first_zero(v, i)].vanishes(),
    decreases v.len() - i,
{
    if i < v.len() && !v[i].vanishes() {
        lemma_first_zero(v, i + 1);
    }
}

/// Where `R` has a zero on its diagonal, `R * y = 0` for some `y` other than zero.
pub proof fn lemma_upper_singular<F: Arithmetic>(
    val: spec_fn(F) -> real,
    p: LeastSquares<F>,
    m: int,
) -> (y: Seq<real>)
    requires
        exact(val),
        p.wf(m),
        exists|j: int| 0 <= j < p.columns.len() && (#[trigger] p.columns[j])[j].vanishes(),
    ensures
        y.len() == p.columns.len(),
        is_zero_vector(product(upper_matrix(val, p), y, p.columns.len() as int)),
        !is_zero_vector(y),
{
    let n = p.columns.len() as int;
    let diagonal = diagonal_of(p.columns);
    let j = first_zero(diagonal, 0);
    lemma_first_zero(diagonal, 0);
    assert(j < n) by {
        let z = choose|z: int| 0 <= z < n && (#[trigger] p.columns[z])[z].vanishes();
        if j == n {
            assert(!diagonal[z].vanishes());
        }
    }
    let b = Seq::new(j as nat, |i: int| p.columns[j][i].negated());
    let solution = upper_solution(p.columns, b, j);
    lemma_upper_solution_keeps(p.columns, b, j);
    let y = Seq::new(
        n as nat,
        |k: int|
            if k < j {
                val(solution[k])
            } else if k == j {
                1 as real
            } else {
                0 as real
            },
    );
    let rm = upper_matrix(val, p);
    let ry = product(rm, y, n);
    assert forall|k: int| 0 <= k < j implies j <= (#[trigger] p.columns[k]).len() && val(
        p.columns[k][k],
    ) != 0 as real by {
        assert(p.columns[k].len() == m);
        assert(!diagonal[k].vanishes());
    }
    assert forall|i: int| 0 <= i < n implies #[trigger] ry[i] == 0 as real by {
        let f = |k: int| rm[k][i] * y[k];
        let zero = 0 as real;
        assert(ry[i] == sum(f, 0, n));
        assert forall|k: int| 0 <= k < n && (k < i || j < k) implies #[trigger] f(k) == zero by {
            let (u, v) = (rm[k][i], y[k]);
            assert(u * v == zero) by (nonlinear_arith)
                requires
                    u == zero || v == zero,
                    zero == 0 as real,
            ;
        }
        if i < j {
            law_upper_solution(val, p.columns, b, j, i);
            lemma_sum_split(f, 0, i, n);
            lemma_sum_of_zeros(f, 0, i);
            lemma_sum_split(f, i, j, n);
            lemma_sum_first(f, j, n);
            lemma_sum_of_zeros(f, j + 1, n);
            let g = |k: int| val(p.columns[k][i]) * val(solution[k]);
            assert forall|k: int| i <= k < j implies #[trigger] f(k) == g(k) by {}
            lemma_sum_congruent(f, g, i, j);
            let u = val(p.columns[j][i]);
            assert(u * (1 as real) == u) by (nonlinear_arith);
        } else {
            if i == j {
                assert(f(j) == zero) by {
                    let u = val(p.columns[j][j]);
                    assert(diagonal[j].vanishes());
                    assert(u * (1 as real) == u) by (nonlinear_arith);
                }
            }
            lemma_sum_of_zeros(f, 0, n);
        }
    }
    assert(y[j] == 1 as real);
    y
}

/// `has_full_rank` tells whether the columns of `A` are linearly independent.
pub proof fn law_has_full_rank<F: Arithmetic>(
    val: spec_fn(F) -> real,
    p: LeastSquares<F>,
    a: Seq<Seq<F>>,
    b: Seq<F>,
    m: int,
)
    requires
        exact(val),
        poses(val, p, a, b, m),
    ensures
        (forall|j: int| 0 <= j < a.len() ==> !(#[trigger] p.columns[j])[j].vanishes())
            <==> independent(matrix_values(val, a), m),
{
    let n = a.len() as int;
    let columns = matrix_values(val, a);
    let rm = upper_matrix(val, p);
    let ap = permuted_columns(val, a, p.permutation);
    let full = forall|j: int| 0 <= j < n ==> !(#[trigger] p.columns[j])[j].vanishes();
    if full {
        assert forall|x: Seq<real>|
            x.len() == n && is_zero_vector(#[trigger] product(columns, x, m)) implies is_zero_vector(
            x,
        ) by {
            let y = Seq::new(n as nat, |k: int| x[p.permutation[k] as int]);
            lemma_permuted_product(val, a, p.permutation, y, x, m);
            lemma_zero_length(product(columns, x, m));
            lemma_upper_length(val, p, a, b, m, y);
            let ry = product(rm, y, n);
            lemma_inner_nonnegative(ry, 0, n);
            assert(is_zero_vector(ry));
            lemma_upper_injective(val, p, y, n, 0);
            assert forall|c: int| 0 <= c < n implies #[trigger] x[c] == 0 as real by {
                lemma_permutation_is_onto(p.permutation, n, c);
                let k = choose|k: int| 0 <= k < n && #[trigger] p.permutation[k] == c;
                assert(y[k] == 0 as real);
            }
        }
    } else {
        let y = lemma_upper_singular(val, p, m);
        let x = Seq::new(
            n as nat,
            |c: int| y[choose|k: int| 0 <= k < n && #[trigger] p.permutation[k] == c],
        );
        assert forall|k: int| 0 <= k < n implies x[#[trigger] p.permutation[k] as int] == y[k] by {
            let c = p.permutation[k] as int;
            assert(p.permutation[k] < n);
            let l = choose|l: int| 0 <= l < n && #[trigger] p.permutation[l] == c;
            assert(p.permutation[k] == c);
            assert(p.permutation[l] == c);
            assert(l == k);
        }
        lemma_permuted_product(val, a, p.permutation, y, x, m);
        lemma_zero_length(product(rm, y, n));
        lemma_upper_length(val, p, a, b, m, y);
        let ax = product(columns, x, m);
        lemma_inner_nonnegative(ax, 0, m);
        assert(is_zero_vector(ax));
        let k = choose|k: int| 0 <= k < n && #[trigger] y[k] != 0 as real;
        assert(p.permutation[k] < n);
        assert(x[p.permutation[k] as int] == y[k]);
        assert(!is_zero_vector(x));
    }
}

/// Whether from a zero on the diagonal of `R` on all rows of `R` are zero.
pub open spec fn graded<F>(val: spec_fn(F) -> real, p: LeastSquares<F>) -> bool {
    forall|k: int, i: int, l: int|
        0 <= k <= i <= l < p.columns.len() && val(#[trigger] p.columns[k][k]) == 0 as real ==> val(
            #[trigger] p.columns[l][i],
        ) == 0 as real
}

/// In the problem that is made from a factorization, from a zero on the diagonal of `R` on all
/// rows of `R` are zero.
pub proof fn law_least_squares_graded<F: Arithmetic>(
    val: spec_fn(F) -> real,
    a: Seq<Seq<F>>,
    b: Seq<F>,
    m: int,
)
    requires
        exact(val),
        a.len() <= m <= usize::MAX,
        has_rows(a, m),
        b.len() == m,
    ensures
        graded(val, least_squares(factorization(a), b)),
{
    let n = a.len() as int;
    let f = factorization(a);
    let p = least_squares(f, b);
    lemma_factorization_wf(val, a, m);
    assert forall|k: int, i: int, l: int|
        0 <= k <= i <= l < n && val(#[trigger] p.columns[k][k]) == 0 as real implies val(
        #[trigger] p.columns[l][i],
    ) == 0 as real by {
        assert(f.columns[k].len() == m);
        assert(f.columns[l].len() == m);
        law_pivots_decrease(val, a, m, k, l);
        assert(r_column(val, f, l)[i] == 0 as real);
    }
}

/// Solving with a diagonal matrix does not change that from a zero on the diagonal of `R` on all rows
/// of `R` are zero.
pub proof fn law_solving_keeps_graded<F: Arithmetic>(
    val: spec_fn(F) -> real,
    p: LeastSquares<F>,
    diag: Seq<F>,
    m: int,
)
    requires
        p.wf(m),
        diag.len() == p.columns.len(),
        graded(val, p),
    ensures
        graded(val, eliminated(p, diag)),
{
    law_solving_keeps_the_problem(p, diag, m);
    let q = eliminated(p, diag);
    assert forall|k: int, i: int, l: int|
        0 <= k <= i <= l < q.columns.len() && val(#[trigger] q.columns[k][k])
            == 0 as real implies val(#[trigger] q.columns[l][i]) == 0 as real by {
        assert(q.columns[k][k] == p.columns[k][k]);
        assert(q.columns[l][i] == p.columns[l][i]);
    }
}

} // verus!
